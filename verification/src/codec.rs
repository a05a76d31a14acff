//! The persisted index document.
//!
//! The index is stored as a single JSON document mapping each path string
//! to an object with its hex fingerprint and its average color:
//! `{"<path>":{"fingerprint":"<hex>","average":[r,g,b]},...}`. The renderer
//! emits one canonical form — no whitespace, minimal decimal numbers,
//! quotes, backslashes and control bytes escaped. The parser accepts the
//! standard concrete syntax of that structure: insignificant whitespace,
//! the two fields of an entry in either order, and the standard string
//! escapes (`\"`, `\\`, `\/`, `\b`, `\f`, `\n`, `\r`, `\t`, and `\uXXXX`
//! for the one-byte ASCII range); anything else is rejected as corrupt.
//! Rendering an index and parsing the document back yields the same index,
//! entry for entry.
use vstd::prelude::*;
use crate::MosaicError;
use crate::index::ContentIndex;
use crate::index::EntryModel;
use crate::index::IndexData;
use crate::index::IndexEntry;

verus! {

pub const QUOTE: u8 = 34;

pub const BACKSLASH: u8 = 92;

pub const LBRACE: u8 = 123;

pub const RBRACE: u8 = 125;

pub const LBRACKET: u8 = 91;

pub const RBRACKET: u8 = 93;

pub const COMMA: u8 = 44;

pub const COLON: u8 = 58;

/// The letter `u`, which opens a four-digit hex escape.
pub const ESC_U: u8 = 117;

/// The letters of the key `fingerprint`.
pub open spec fn key_fingerprint() -> Seq<u8> {
    seq![102u8, 105u8, 110u8, 103u8, 101u8, 114u8, 112u8, 114u8, 105u8, 110u8, 116u8]
}

/// The letters of the key `average`.
pub open spec fn key_average() -> Seq<u8> {
    seq![97u8, 118u8, 101u8, 114u8, 97u8, 103u8, 101u8]
}

/// One lowercase hex digit character.
pub open spec fn hex_char(x: int) -> u8 {
    if x < 10 {
        (48 + x) as u8
    } else {
        (87 + x) as u8
    }
}

/// How one byte appears inside a quoted string: quotes and backslashes
/// take an escaping backslash, control bytes become `\u00xy`, everything
/// else stands as it is.
pub open spec fn escape_byte(b: u8) -> Seq<u8> {
    if b == QUOTE || b == BACKSLASH {
        seq![BACKSLASH, b]
    } else if b < 32 {
        seq![BACKSLASH, ESC_U, 48u8, 48u8, hex_char(b as int / 16), hex_char(b as int % 16)]
    } else {
        seq![b]
    }
}

/// A byte string with its specials escaped.
pub open spec fn escape_spec(v: Seq<u8>) -> Seq<u8>
    decreases v.len(),
{
    if v.len() == 0 {
        Seq::empty()
    } else {
        escape_byte(v.first()) + escape_spec(v.drop_first())
    }
}

/// A quoted, escaped string.
pub open spec fn render_string_spec(v: Seq<u8>) -> Seq<u8> {
    seq![QUOTE] + escape_spec(v) + seq![QUOTE]
}

/// One decimal digit character.
pub open spec fn digit_char(x: int) -> u8 {
    (48 + x) as u8
}

/// A color channel in minimal decimal: one to three digits, no leading
/// zero.
pub open spec fn render_u8_spec(v: u8) -> Seq<u8> {
    if v < 10 {
        seq![digit_char(v as int)]
    } else if v < 100 {
        seq![digit_char(v as int / 10), digit_char(v as int % 10)]
    } else {
        seq![digit_char(v as int / 100), digit_char((v as int / 10) % 10), digit_char(v as int % 10)]
    }
}

/// The fixed text between a path string and its fingerprint string.
pub open spec fn sep_fingerprint() -> Seq<u8> {
    seq![COLON, LBRACE, QUOTE] + key_fingerprint() + seq![QUOTE, COLON]
}

/// The fixed text between the fingerprint string and the color array.
pub open spec fn sep_average() -> Seq<u8> {
    seq![COMMA, QUOTE] + key_average() + seq![QUOTE, COLON, LBRACKET]
}

/// One index entry as canonical document text:
/// `"<path>":{"fingerprint":"<hex>","average":[r,g,b]}`.
pub open spec fn render_entry_spec(e: EntryModel) -> Seq<u8> {
    render_string_spec(e.path) + sep_fingerprint() + render_string_spec(e.hash) + sep_average()
        + render_u8_spec(e.average.0) + seq![COMMA] + render_u8_spec(e.average.1) + seq![COMMA]
        + render_u8_spec(e.average.2) + seq![RBRACKET, RBRACE]
}

/// Second and later entries, each preceded by a comma.
pub open spec fn render_rest_spec(s: Seq<EntryModel>) -> Seq<u8>
    decreases s.len(),
{
    if s.len() == 0 {
        Seq::empty()
    } else {
        seq![COMMA] + render_entry_spec(s.first()) + render_rest_spec(s.drop_first())
    }
}

/// The comma-separated entry list.
pub open spec fn render_entries_spec(s: Seq<EntryModel>) -> Seq<u8> {
    if s.len() == 0 {
        Seq::empty()
    } else {
        render_entry_spec(s.first()) + render_rest_spec(s.drop_first())
    }
}

/// The whole document: the entry list in braces.
pub open spec fn render_index_spec(s: Seq<EntryModel>) -> Seq<u8> {
    seq![LBRACE] + render_entries_spec(s) + seq![RBRACE]
}

/// Peeling the last entry off the rendered list.
proof fn lemma_render_rest_snoc(s: Seq<EntryModel>)
    requires
        s.len() > 0,
    ensures
        render_rest_spec(s) == render_rest_spec(s.drop_last()) + seq![COMMA] + render_entry_spec(
            s.last(),
        ),
    decreases s.len(),
{
    if s.len() == 1 {
        assert(s.drop_last() =~= Seq::<EntryModel>::empty());
        assert(render_rest_spec(s.drop_last()) == Seq::<u8>::empty());
        assert(s.first() == s.last());
        assert(render_rest_spec(s.drop_first()) == Seq::<u8>::empty()) by {
            assert(s.drop_first() =~= Seq::<EntryModel>::empty());
        }
        assert(render_rest_spec(s) =~= render_rest_spec(s.drop_last()) + seq![COMMA]
            + render_entry_spec(s.last()));
    } else {
        lemma_render_rest_snoc(s.drop_first());
        assert(s.drop_first().drop_last() =~= s.drop_last().drop_first());
        assert(s.drop_first().last() == s.last());
        assert(s.drop_last().first() == s.first());
        assert(s.drop_last().len() > 0);
        assert(render_rest_spec(s) == seq![COMMA] + render_entry_spec(s.first()) + render_rest_spec(
            s.drop_first(),
        ));
        assert(render_rest_spec(s.drop_last()) == seq![COMMA] + render_entry_spec(
            s.drop_last().first(),
        ) + render_rest_spec(s.drop_last().drop_first()));
        assert(render_rest_spec(s) =~= render_rest_spec(s.drop_last()) + seq![COMMA]
            + render_entry_spec(s.last()));
    }
}

/// Peeling the last entry off the rendered entry list.
proof fn lemma_render_entries_snoc(s: Seq<EntryModel>)
    requires
        s.len() > 0,
    ensures
        render_entries_spec(s) == if s.len() == 1 {
            render_entry_spec(s.last())
        } else {
            render_entries_spec(s.drop_last()) + seq![COMMA] + render_entry_spec(s.last())
        },
{
    if s.len() == 1 {
        assert(s.drop_first() =~= Seq::<EntryModel>::empty());
        assert(render_entries_spec(s) =~= render_entry_spec(s.last()));
    } else {
        lemma_render_rest_snoc(s.drop_first());
        assert(s.drop_first().drop_last() =~= s.drop_last().drop_first());
        assert(s.drop_first().last() == s.last());
        assert(s.drop_last().first() == s.first());
        assert(s.drop_last().len() > 0);
        assert(render_entries_spec(s) =~= render_entries_spec(s.drop_last()) + seq![COMMA]
            + render_entry_spec(s.last()));
    }
}

/// Escaping byte by byte from the back.
proof fn lemma_escape_snoc(v: Seq<u8>)
    requires
        v.len() > 0,
    ensures
        escape_spec(v) == escape_spec(v.drop_last()) + escape_byte(v.last()),
    decreases v.len(),
{
    if v.len() == 1 {
        assert(v.drop_first() =~= Seq::<u8>::empty());
        assert(v.drop_last() =~= Seq::<u8>::empty());
        assert(escape_spec(v) =~= escape_spec(v.drop_last()) + escape_byte(v.last()));
    } else {
        lemma_escape_snoc(v.drop_first());
        assert(v.drop_first().drop_last() =~= v.drop_last().drop_first());
        assert(v.drop_first().last() == v.last());
        assert(v.drop_last().first() == v.first());
        assert(v.drop_last().len() > 0);
        assert(escape_spec(v) =~= escape_spec(v.drop_last()) + escape_byte(v.last()));
    }
}

/// Escaping a string of plain bytes — printable, no quote, no backslash —
/// leaves it as it is.
proof fn lemma_escape_plain(v: Seq<u8>)
    requires
        forall|k: int| 0 <= k < v.len() ==> 32 <= #[trigger] v[k] && v[k] != QUOTE && v[k] != BACKSLASH,
    ensures
        escape_spec(v) == v,
    decreases v.len(),
{
    if v.len() > 0 {
        assert(forall|k: int| 0 <= k < v.len() - 1 ==> v.drop_first()[k] == v[k + 1]);
        lemma_escape_plain(v.drop_first());
        assert(escape_byte(v.first()) =~= seq![v.first()]);
        assert(escape_spec(v) =~= v);
    }
}

/// One lowercase hex digit character, computed.
fn hex_char_of(x: u8) -> (r: u8)
    requires
        x < 16,
    ensures
        r == hex_char(x as int),
{
    if x < 10 {
        48 + x
    } else {
        87 + x
    }
}

/// Appends a byte string to the output with its specials escaped, between
/// quotes.
fn push_string(out: &mut Vec<u8>, v: &Vec<u8>)
    ensures
        final(out)@ == old(out)@ + render_string_spec(v@),
{
    let ghost base = out@;
    out.push(QUOTE);
    let n: usize = v.len();
    let mut i: usize = 0;
    while i < n
        invariant
            0 <= i <= n,
            n == v@.len(),
            out@ == base + seq![QUOTE] + escape_spec(v@.take(i as int)),
        decreases n - i,
    {
        let b = v[i];
        proof {
            let pre = v@.take(i as int);
            let post = v@.take(i + 1);
            assert(post.drop_last() =~= pre);
            assert(post.last() == v@[i as int]);
            lemma_escape_snoc(post);
        }
        if b == QUOTE || b == BACKSLASH {
            out.push(BACKSLASH);
            out.push(b);
            proof {
                assert(out@ =~= base + seq![QUOTE] + escape_spec(v@.take(i + 1)));
            }
        } else if b < 32 {
            out.push(BACKSLASH);
            out.push(ESC_U);
            out.push(48);
            out.push(48);
            out.push(hex_char_of(b / 16));
            out.push(hex_char_of(b % 16));
            proof {
                assert(out@ =~= base + seq![QUOTE] + escape_spec(v@.take(i + 1)));
            }
        } else {
            out.push(b);
            proof {
                assert(out@ =~= base + seq![QUOTE] + escape_spec(v@.take(i + 1)));
            }
        }
        i = i + 1;
    }
    proof {
        assert(v@.take(n as int) =~= v@);
    }
    out.push(QUOTE);
    proof {
        assert(out@ =~= base + render_string_spec(v@));
    }
}

/// Appends a color channel in minimal decimal.
fn push_u8_dec(out: &mut Vec<u8>, v: u8)
    ensures
        final(out)@ == old(out)@ + render_u8_spec(v),
{
    let ghost base = out@;
    if v < 10 {
        out.push(48 + v);
        proof {
            assert(out@ =~= base + render_u8_spec(v));
        }
    } else if v < 100 {
        out.push(48 + v / 10);
        out.push(48 + v % 10);
        proof {
            assert(out@ =~= base + render_u8_spec(v));
        }
    } else {
        out.push(48 + v / 100);
        out.push(48 + (v / 10) % 10);
        out.push(48 + v % 10);
        proof {
            assert(out@ =~= base + render_u8_spec(v));
        }
    }
}

/// Appends the fixed text between path and fingerprint.
fn push_sep_fingerprint(out: &mut Vec<u8>)
    ensures
        final(out)@ == old(out)@ + sep_fingerprint(),
{
    let ghost base = out@;
    out.push(COLON);
    out.push(LBRACE);
    out.push(QUOTE);
    out.push(102);
    out.push(105);
    out.push(110);
    out.push(103);
    out.push(101);
    out.push(114);
    out.push(112);
    out.push(114);
    out.push(105);
    out.push(110);
    out.push(116);
    out.push(QUOTE);
    out.push(COLON);
    proof {
        assert(out@ =~= base + sep_fingerprint());
    }
}

/// Appends the fixed text between fingerprint and color array.
fn push_sep_average(out: &mut Vec<u8>)
    ensures
        final(out)@ == old(out)@ + sep_average(),
{
    let ghost base = out@;
    out.push(COMMA);
    out.push(QUOTE);
    out.push(97);
    out.push(118);
    out.push(101);
    out.push(114);
    out.push(97);
    out.push(103);
    out.push(101);
    out.push(QUOTE);
    out.push(COLON);
    out.push(LBRACKET);
    proof {
        assert(out@ =~= base + sep_average());
    }
}

/// Appends one rendered entry.
fn push_entry(out: &mut Vec<u8>, e: &IndexEntry)
    ensures
        final(out)@ == old(out)@ + render_entry_spec(e@),
{
    let ghost base = out@;
    push_string(out, &e.path);
    push_sep_fingerprint(out);
    push_string(out, &e.data.hash);
    push_sep_average(out);
    push_u8_dec(out, e.data.average.0);
    out.push(COMMA);
    push_u8_dec(out, e.data.average.1);
    out.push(COMMA);
    push_u8_dec(out, e.data.average.2);
    out.push(RBRACKET);
    out.push(RBRACE);
    proof {
        assert(out@ =~= base + render_entry_spec(e@));
    }
}

/// Renders the whole index as its canonical persisted document.
pub fn render_index(idx: &ContentIndex) -> (r: Vec<u8>)
    ensures
        r@ == render_index_spec(idx@),
{
    let mut out: Vec<u8> = Vec::new();
    out.push(LBRACE);
    let n: usize = idx.entries.len();
    let mut i: usize = 0;
    while i < n
        invariant
            0 <= i <= n,
            n == idx.entries@.len(),
            n == idx@.len(),
            out@ == seq![LBRACE] + render_entries_spec(idx@.take(i as int)),
        decreases n - i,
    {
        proof {
            let pre = idx@.take(i as int);
            let post = idx@.take(i + 1);
            assert(post.drop_last() =~= pre);
            assert(post.last() == idx@[i as int]);
            lemma_render_entries_snoc(post);
        }
        if i > 0 {
            out.push(COMMA);
        }
        push_entry(&mut out, &idx.entries[i]);
        proof {
            assert(out@ =~= seq![LBRACE] + render_entries_spec(idx@.take(i + 1)));
        }
        i = i + 1;
    }
    proof {
        assert(idx@.take(n as int) =~= idx@);
    }
    out.push(RBRACE);
    proof {
        assert(out@ =~= render_index_spec(idx@));
    }
    out
}

/// JSON's insignificant whitespace.
pub open spec fn is_ws(b: u8) -> bool {
    b == 32 || b == 9 || b == 10 || b == 13
}

/// The first position at or after `i` that holds no whitespace.
pub open spec fn skip_ws(s: Seq<u8>, i: int) -> int
    decreases s.len() - i,
{
    if 0 <= i < s.len() && is_ws(s[i]) {
        skip_ws(s, i + 1)
    } else {
        i
    }
}

/// What a single-letter escape stands for.
pub open spec fn unescape_char(c: u8) -> Option<u8> {
    if c == QUOTE {
        Some(QUOTE)
    } else if c == BACKSLASH {
        Some(BACKSLASH)
    } else if c == 47 {
        Some(47u8)
    } else if c == 98 {
        Some(8u8)
    } else if c == 102 {
        Some(12u8)
    } else if c == 110 {
        Some(10u8)
    } else if c == 114 {
        Some(13u8)
    } else if c == 116 {
        Some(9u8)
    } else {
        None
    }
}

/// The value of one hex digit character, either case.
pub open spec fn hex_digit_val(b: u8) -> Option<int> {
    if 48 <= b && b <= 57 {
        Some((b - 48) as int)
    } else if 97 <= b && b <= 102 {
        Some((b - 87) as int)
    } else if 65 <= b && b <= 70 {
        Some((b - 55) as int)
    } else {
        None
    }
}

/// The value of the four hex digit characters at `i`.
pub open spec fn hex4_val(s: Seq<u8>, i: int) -> Option<int>
    recommends
        0 <= i,
        i + 4 <= s.len(),
{
    match hex_digit_val(s[i]) {
        Some(h1) => match hex_digit_val(s[i + 1]) {
            Some(h2) => match hex_digit_val(s[i + 2]) {
                Some(h3) => match hex_digit_val(s[i + 3]) {
                    Some(h4) => Some(h1 * 4096 + h2 * 256 + h3 * 16 + h4),
                    None => None,
                },
                None => None,
            },
            None => None,
        },
        None => None,
    }
}

/// A byte of a quoted string scanned from position `i`: a quote ends the
/// string; a backslash escapes a quote, backslash, slash, one of the
/// control letters, or a `\uXXXX` code point in the one-byte ASCII range;
/// a raw control byte is invalid; anything else stands for itself.
pub open spec fn parse_string_body(s: Seq<u8>, i: int) -> Option<(Seq<u8>, int)>
    decreases s.len() - i,
{
    if i < 0 || i >= s.len() {
        None
    } else if s[i] == QUOTE {
        Some((Seq::empty(), i + 1))
    } else if s[i] == BACKSLASH {
        if i + 1 < s.len() && s[i + 1] == ESC_U {
            if s.len() - i > 5 {
                match hex4_val(s, i + 2) {
                    Some(v) => if v < 128 {
                        match parse_string_body(s, i + 6) {
                            Some((t, j)) => Some((seq![v as u8] + t, j)),
                            None => None,
                        }
                    } else {
                        None
                    },
                    None => None,
                }
            } else {
                None
            }
        } else if i + 1 < s.len() {
            match unescape_char(s[i + 1]) {
                Some(b) => match parse_string_body(s, i + 2) {
                    Some((t, j)) => Some((seq![b] + t, j)),
                    None => None,
                },
                None => None,
            }
        } else {
            None
        }
    } else if s[i] < 32 {
        None
    } else {
        match parse_string_body(s, i + 1) {
            Some((t, j)) => Some((seq![s[i]] + t, j)),
            None => None,
        }
    }
}

/// A quoted string starting exactly at `i`.
pub open spec fn parse_string_spec(s: Seq<u8>, i: int) -> Option<(Seq<u8>, int)> {
    if 0 <= i < s.len() && s[i] == QUOTE {
        parse_string_body(s, i + 1)
    } else {
        None
    }
}

/// A color channel at `i`: one to three digits, no leading zero, value at
/// most 255 — the JSON integer grammar restricted to this range.
pub open spec fn parse_u8_sp(s: Seq<u8>, i: int) -> Option<(u8, int)> {
    if 0 <= i < s.len() && crate::params::is_digit(s[i]) {
        if s[i] == 48 {
            Some((0u8, i + 1))
        } else if i + 1 < s.len() && crate::params::is_digit(s[i + 1]) {
            if i + 2 < s.len() && crate::params::is_digit(s[i + 2]) {
                if i + 3 < s.len() && crate::params::is_digit(s[i + 3]) {
                    None
                } else {
                    let v = (s[i] - 48) * 100 + (s[i + 1] - 48) * 10 + (s[i + 2] - 48);
                    if v <= 255 {
                        Some((v as u8, i + 3))
                    } else {
                        None
                    }
                }
            } else {
                Some((((s[i] - 48) * 10 + (s[i + 1] - 48)) as u8, i + 2))
            }
        } else {
            Some(((s[i] - 48) as u8, i + 1))
        }
    } else {
        None
    }
}

/// The three-channel color array, whitespace allowed between tokens.
pub open spec fn parse_avg_spec(s: Seq<u8>, i0: int) -> Option<((u8, u8, u8), int)> {
    let i = skip_ws(s, i0);
    if 0 <= i < s.len() && s[i] == LBRACKET {
        match parse_u8_sp(s, skip_ws(s, i + 1)) {
            Some((a, ja)) => {
                let c1 = skip_ws(s, ja);
                if 0 <= c1 < s.len() && s[c1] == COMMA {
                    match parse_u8_sp(s, skip_ws(s, c1 + 1)) {
                        Some((b, jb)) => {
                            let c2 = skip_ws(s, jb);
                            if 0 <= c2 < s.len() && s[c2] == COMMA {
                                match parse_u8_sp(s, skip_ws(s, c2 + 1)) {
                                    Some((c, jc)) => {
                                        let e = skip_ws(s, jc);
                                        if 0 <= e < s.len() && s[e] == RBRACKET {
                                            Some(((a, b, c), e + 1))
                                        } else {
                                            None
                                        }
                                    },
                                    None => None,
                                }
                            } else {
                                None
                            }
                        },
                        None => None,
                    }
                } else {
                    None
                }
            },
            None => None,
        }
    } else {
        None
    }
}

/// The two fields of an entry object, in either order: the fingerprint
/// string and the average color array, each named by its key.
pub open spec fn parse_entry_body(s: Seq<u8>, i0: int) -> Option<(Seq<u8>, (u8, u8, u8), int)> {
    match parse_string_spec(s, skip_ws(s, i0)) {
        Some((key1, j1)) => {
            let c = skip_ws(s, j1);
            if 0 <= c < s.len() && s[c] == COLON {
                if key1 == key_fingerprint() {
                    match parse_string_spec(s, skip_ws(s, c + 1)) {
                        Some((hash, j2)) => {
                            let cm = skip_ws(s, j2);
                            if 0 <= cm < s.len() && s[cm] == COMMA {
                                match parse_string_spec(s, skip_ws(s, cm + 1)) {
                                    Some((key2, j3)) => if key2 == key_average() {
                                        let c2 = skip_ws(s, j3);
                                        if 0 <= c2 < s.len() && s[c2] == COLON {
                                            match parse_avg_spec(s, c2 + 1) {
                                                Some((avg, j4)) => Some((hash, avg, j4)),
                                                None => None,
                                            }
                                        } else {
                                            None
                                        }
                                    } else {
                                        None
                                    },
                                    None => None,
                                }
                            } else {
                                None
                            }
                        },
                        None => None,
                    }
                } else if key1 == key_average() {
                    match parse_avg_spec(s, c + 1) {
                        Some((avg, j2)) => {
                            let cm = skip_ws(s, j2);
                            if 0 <= cm < s.len() && s[cm] == COMMA {
                                match parse_string_spec(s, skip_ws(s, cm + 1)) {
                                    Some((key2, j3)) => if key2 == key_fingerprint() {
                                        let c2 = skip_ws(s, j3);
                                        if 0 <= c2 < s.len() && s[c2] == COLON {
                                            match parse_string_spec(s, skip_ws(s, c2 + 1)) {
                                                Some((hash, j4)) => Some((hash, avg, j4)),
                                                None => None,
                                            }
                                        } else {
                                            None
                                        }
                                    } else {
                                        None
                                    },
                                    None => None,
                                }
                            } else {
                                None
                            }
                        },
                        None => None,
                    }
                } else {
                    None
                }
            } else {
                None
            }
        },
        None => None,
    }
}

/// One full entry from position `i0`: the path string, a colon, and the
/// braced field object.
pub open spec fn parse_entry_spec(s: Seq<u8>, i0: int) -> Option<(EntryModel, int)> {
    match parse_string_spec(s, skip_ws(s, i0)) {
        Some((path, j1)) => {
            let c = skip_ws(s, j1);
            if 0 <= c < s.len() && s[c] == COLON {
                let b = skip_ws(s, c + 1);
                if 0 <= b < s.len() && s[b] == LBRACE {
                    match parse_entry_body(s, b + 1) {
                        Some((hash, avg, j2)) => {
                            let e = skip_ws(s, j2);
                            if 0 <= e < s.len() && s[e] == RBRACE {
                                Some((EntryModel { path, hash, average: avg }, e + 1))
                            } else {
                                None
                            }
                        },
                        None => None,
                    }
                } else {
                    None
                }
            } else {
                None
            }
        },
        None => None,
    }
}

/// Whether some entry already carries this path.
pub open spec fn has_path(s: Seq<EntryModel>, p: Seq<u8>) -> bool {
    exists|k: int| 0 <= k < s.len() && s[k].path == p
}

/// The remaining comma-led entries from position `i0`, accumulated onto
/// `acc`; stops at the first token that is not a comma, and rejects a path
/// seen before.
pub open spec fn parse_rest_spec(s: Seq<u8>, i0: int, acc: Seq<EntryModel>) -> Option<
    (Seq<EntryModel>, int),
>
    decreases s.len() - i0,
{
    let i = skip_ws(s, i0);
    if 0 <= i < s.len() && s[i] == COMMA {
        match parse_entry_spec(s, i + 1) {
            Some((e, j)) => if i0 < j && j <= s.len() && !has_path(acc, e.path) {
                parse_rest_spec(s, j, acc.push(e))
            } else {
                None
            },
            None => None,
        }
    } else {
        Some((acc, i))
    }
}

/// The whole document: the brace-wrapped, comma-separated entry list with
/// only whitespace around it, and no duplicate path.
pub open spec fn parse_index_spec(s: Seq<u8>) -> Option<Seq<EntryModel>> {
    let i = skip_ws(s, 0);
    if 0 <= i < s.len() && s[i] == LBRACE {
        let j = skip_ws(s, i + 1);
        if 0 <= j < s.len() && s[j] == RBRACE {
            if skip_ws(s, j + 1) == s.len() {
                Some(Seq::empty())
            } else {
                None
            }
        } else {
            match parse_entry_spec(s, i + 1) {
                Some((e, j1)) => match parse_rest_spec(s, j1, seq![e]) {
                    Some((acc, j2)) => if 0 <= j2 < s.len() && s[j2] == RBRACE && skip_ws(
                        s,
                        j2 + 1,
                    ) == s.len() {
                        Some(acc)
                    } else {
                        None
                    },
                    None => None,
                },
                None => None,
            }
        }
    } else {
        None
    }
}

/// Splitting a known stretch of the document at a concatenation seam.
proof fn lemma_subrange_split(s: Seq<u8>, i: int, a: Seq<u8>, b: Seq<u8>)
    requires
        0 <= i,
        i + a.len() + b.len() <= s.len(),
        s.subrange(i, i + a.len() + b.len()) == a + b,
    ensures
        s.subrange(i, i + a.len()) == a,
        s.subrange(i + a.len(), i + a.len() + b.len()) == b,
{
    let al = a.len() as int;
    let bl = b.len() as int;
    assert(s.subrange(i, i + al) =~= a) by {
        assert forall|k: int| 0 <= k < al implies s.subrange(i, i + al)[k] == a[k] by {
            assert(s.subrange(i, i + al + bl)[k] == (a + b)[k]);
        }
    }
    assert(s.subrange(i + al, i + al + bl) =~= b) by {
        assert forall|k: int| 0 <= k < bl implies s.subrange(i + al, i + al + bl)[k] == b[k] by {
            assert(s.subrange(i, i + al + bl)[al + k] == (a + b)[al + k]);
        }
    }
}

/// The middle piece of a three-way concatenation sits at its offset.
proof fn lemma_mid_of_concat(s: Seq<u8>, pre: Seq<u8>, mid: Seq<u8>, post: Seq<u8>)
    requires
        s == pre + mid + post,
    ensures
        s.subrange(pre.len() as int, pre.len() as int + mid.len() as int) == mid,
{
    let o = pre.len() as int;
    assert(s.subrange(o, o + mid.len() as int) =~= mid) by {
        assert forall|k: int| 0 <= k < mid.len() implies s.subrange(o, o + mid.len() as int)[k]
            == mid[k] by {
            assert(s[o + k] == (pre + mid + post)[o + k]);
        }
    }
}

/// Scanning the rendered form of a string recovers the string: the
/// escaping never leaves a bare quote, backslash or control byte before
/// the closing quote.
proof fn lemma_parse_sbody_render(v: Seq<u8>, s: Seq<u8>, i: int)
    requires
        0 <= i,
        i + escape_spec(v).len() + 1 <= s.len(),
        s.subrange(i, i + escape_spec(v).len() + 1) == escape_spec(v) + seq![QUOTE],
    ensures
        parse_string_body(s, i) == Some((v, i + escape_spec(v).len() + 1)),
    decreases v.len(),
{
    let ev = escape_spec(v);
    if v.len() == 0 {
        assert(ev =~= Seq::<u8>::empty());
        assert(s.subrange(i, i + 1)[0] == (ev + seq![QUOTE])[0]);
        assert(s[i] == QUOTE);
        assert(parse_string_body(s, i) == Some((Seq::<u8>::empty(), i + 1)));
        assert(Seq::<u8>::empty() =~= v);
    } else {
        let b = v.first();
        let rest = v.drop_first();
        let eb = escape_byte(b);
        assert(ev == eb + escape_spec(rest));
        assert(ev + seq![QUOTE] =~= eb + (escape_spec(rest) + seq![QUOTE]));
        lemma_subrange_split(s, i, eb, escape_spec(rest) + seq![QUOTE]);
        if b == QUOTE || b == BACKSLASH {
            assert(s.subrange(i, i + 2)[0] == eb[0] && s.subrange(i, i + 2)[1] == eb[1]);
            assert(s[i] == BACKSLASH && s[i + 1] == b);
            assert(s[i + 1] != ESC_U);
            assert(unescape_char(b) == Some(b));
            lemma_parse_sbody_render(rest, s, i + 2);
            assert(seq![s[i + 1]] + rest =~= v);
        } else if b < 32 {
            let hi = b as int / 16;
            let lo = b as int % 16;
            assert(s.subrange(i, i + 6)[0] == eb[0] && s.subrange(i, i + 6)[1] == eb[1]
                && s.subrange(i, i + 6)[2] == eb[2] && s.subrange(i, i + 6)[3] == eb[3]
                && s.subrange(i, i + 6)[4] == eb[4] && s.subrange(i, i + 6)[5] == eb[5]);
            assert(s[i] == BACKSLASH && s[i + 1] == ESC_U && s[i + 2] == 48 && s[i + 3] == 48 && s[i
                + 4] == hex_char(hi) && s[i + 5] == hex_char(lo));
            assert(0 <= hi < 2 && 0 <= lo < 16);
            assert(hex_digit_val(48) == Some(0int));
            assert(hex_digit_val(hex_char(hi)) == Some(hi));
            assert(hex_digit_val(hex_char(lo)) == Some(lo));
            assert(hex4_val(s, i + 2) == Some(hi * 16 + lo));
            assert(hi * 16 + lo == b);
            lemma_parse_sbody_render(rest, s, i + 6);
            assert(seq![(hi * 16 + lo) as u8] + rest =~= v);
        } else {
            assert(s.subrange(i, i + 1)[0] == eb[0]);
            assert(s[i] == b);
            lemma_parse_sbody_render(rest, s, i + 1);
            assert(seq![s[i]] + rest =~= v);
        }
    }
}

/// Parsing the rendered form of a quoted string recovers the string.
proof fn lemma_parse_string_render(v: Seq<u8>, s: Seq<u8>, i: int)
    requires
        0 <= i,
        i + render_string_spec(v).len() <= s.len(),
        s.subrange(i, i + render_string_spec(v).len()) == render_string_spec(v),
    ensures
        parse_string_spec(s, i) == Some((v, i + render_string_spec(v).len())),
        s[i] == QUOTE,
    decreases v.len(),
{
    assert(render_string_spec(v) =~= seq![QUOTE] + (escape_spec(v) + seq![QUOTE]));
    lemma_subrange_split(s, i, seq![QUOTE], escape_spec(v) + seq![QUOTE]);
    assert(s.subrange(i, i + 1)[0] == QUOTE);
    assert(s[i] == QUOTE);
    lemma_parse_sbody_render(v, s, i + 1);
}

/// Parsing the rendered form of a channel value recovers the value, as
/// long as the next byte is not a digit.
proof fn lemma_parse_u8_render(v: u8, s: Seq<u8>, i: int)
    requires
        0 <= i,
        i + render_u8_spec(v).len() < s.len(),
        s.subrange(i, i + render_u8_spec(v).len()) == render_u8_spec(v),
        !crate::params::is_digit(s[i + render_u8_spec(v).len()]),
    ensures
        parse_u8_sp(s, i) == Some((v, i + render_u8_spec(v).len())),
        crate::params::is_digit(s[i]),
{
    let rd = render_u8_spec(v);
    if v < 10 {
        assert(s.subrange(i, i + 1)[0] == rd[0]);
        assert(s[i] == digit_char(v as int));
    } else if v < 100 {
        assert(s.subrange(i, i + 2)[0] == rd[0] && s.subrange(i, i + 2)[1] == rd[1]);
        assert(s[i] == digit_char(v as int / 10) && s[i + 1] == digit_char(v as int % 10));
        assert(v as int / 10 >= 1 && v as int / 10 <= 9 && v as int % 10 >= 0 && v as int % 10
            <= 9);
        assert((s[i] - 48) * 10 + (s[i + 1] - 48) == v);
    } else {
        assert(s.subrange(i, i + 3)[0] == rd[0] && s.subrange(i, i + 3)[1] == rd[1] && s.subrange(
            i,
            i + 3,
        )[2] == rd[2]);
        assert(s[i] == digit_char(v as int / 100) && s[i + 1] == digit_char((v as int / 10) % 10)
            && s[i + 2] == digit_char(v as int % 10));
        assert(v as int / 100 >= 1 && v as int / 100 <= 2);
        assert((s[i] - 48) * 100 + (s[i + 1] - 48) * 10 + (s[i + 2] - 48) == v);
    }
}

/// A rendered entry is never empty and opens with the path's quote.
proof fn lemma_render_entry_len(e: EntryModel)
    ensures
        render_entry_spec(e).len() >= 2,
        render_entry_spec(e)[0] == QUOTE,
{
    assert(render_entry_spec(e)[0] == render_string_spec(e.path)[0]);
}

/// The key letters are plain bytes, so their rendered strings are the bare
/// quoted letters.
proof fn lemma_keys_plain()
    ensures
        escape_spec(key_fingerprint()) == key_fingerprint(),
        escape_spec(key_average()) == key_average(),
{
    lemma_escape_plain(key_fingerprint());
    lemma_escape_plain(key_average());
}

/// The canonical text of the color array.
spec fn avg_text(a: u8, b: u8, c: u8) -> Seq<u8> {
    seq![LBRACKET] + render_u8_spec(a) + seq![COMMA] + render_u8_spec(b) + seq![COMMA]
        + render_u8_spec(c) + seq![RBRACKET]
}

/// The canonical text of an entry's field object, fingerprint first.
spec fn body_text(hash: Seq<u8>, a: u8, b: u8, c: u8) -> Seq<u8> {
    render_string_spec(key_fingerprint()) + seq![COLON] + render_string_spec(hash) + seq![COMMA]
        + render_string_spec(key_average()) + seq![COLON] + avg_text(a, b, c)
}

/// Parsing the canonical color array recovers the three channels.
#[verifier::rlimit(50)]
proof fn lemma_parse_avg_render(a: u8, b: u8, c: u8, s: Seq<u8>, i: int)
    requires
        0 <= i,
        i + avg_text(a, b, c).len() <= s.len(),
        s.subrange(i, i + avg_text(a, b, c).len()) == avg_text(a, b, c),
    ensures
        parse_avg_spec(s, i) == Some(((a, b, c), i + avg_text(a, b, c).len())),
{
    let q1 = seq![LBRACKET];
    let q2 = render_u8_spec(a);
    let q3 = seq![COMMA];
    let q4 = render_u8_spec(b);
    let q5 = seq![COMMA];
    let q6 = render_u8_spec(c);
    let q7 = seq![RBRACKET];
    let t6 = q6 + q7;
    let t5 = q5 + t6;
    let t4 = q4 + t5;
    let t3 = q3 + t4;
    let t2 = q2 + t3;
    let t1 = q1 + t2;
    assert(avg_text(a, b, c) =~= t1);
    let o1 = i + 1;
    lemma_subrange_split(s, i, q1, t2);
    assert(s.subrange(i, o1)[0] == LBRACKET);
    assert(s[i] == LBRACKET);
    let o2 = o1 + q2.len();
    lemma_subrange_split(s, o1, q2, t3);
    let o3 = o2 + 1;
    lemma_subrange_split(s, o2, q3, t4);
    assert(s.subrange(o2, o3)[0] == COMMA);
    assert(s[o2] == COMMA);
    lemma_parse_u8_render(a, s, o1);
    let o4 = o3 + q4.len();
    lemma_subrange_split(s, o3, q4, t5);
    let o5 = o4 + 1;
    lemma_subrange_split(s, o4, q5, t6);
    assert(s.subrange(o4, o5)[0] == COMMA);
    assert(s[o4] == COMMA);
    lemma_parse_u8_render(b, s, o3);
    let o6 = o5 + q6.len();
    lemma_subrange_split(s, o5, q6, q7);
    let o7 = o6 + 1;
    assert(s.subrange(o6, o7)[0] == RBRACKET);
    assert(s[o6] == RBRACKET);
    lemma_parse_u8_render(c, s, o5);
}

/// Parsing the canonical field object recovers fingerprint and color.
#[verifier::rlimit(50)]
proof fn lemma_parse_body_render(hash: Seq<u8>, a: u8, b: u8, c: u8, s: Seq<u8>, i: int)
    requires
        0 <= i,
        i + body_text(hash, a, b, c).len() <= s.len(),
        s.subrange(i, i + body_text(hash, a, b, c).len()) == body_text(hash, a, b, c),
    ensures
        parse_entry_body(s, i) == Some((hash, (a, b, c), i + body_text(hash, a, b, c).len())),
{
    lemma_keys_plain();
    let q1 = render_string_spec(key_fingerprint());
    let q2 = seq![COLON];
    let q3 = render_string_spec(hash);
    let q4 = seq![COMMA];
    let q5 = render_string_spec(key_average());
    let q6 = seq![COLON];
    let q7 = avg_text(a, b, c);
    let t6 = q6 + q7;
    let t5 = q5 + t6;
    let t4 = q4 + t5;
    let t3 = q3 + t4;
    let t2 = q2 + t3;
    let t1 = q1 + t2;
    assert(body_text(hash, a, b, c) =~= t1);
    let o1 = i + q1.len();
    lemma_subrange_split(s, i, q1, t2);
    lemma_parse_string_render(key_fingerprint(), s, i);
    let o2 = o1 + 1;
    lemma_subrange_split(s, o1, q2, t3);
    assert(s.subrange(o1, o2)[0] == COLON);
    assert(s[o1] == COLON);
    let o3 = o2 + q3.len();
    lemma_subrange_split(s, o2, q3, t4);
    lemma_parse_string_render(hash, s, o2);
    let o4 = o3 + 1;
    lemma_subrange_split(s, o3, q4, t5);
    assert(s.subrange(o3, o4)[0] == COMMA);
    assert(s[o3] == COMMA);
    let o5 = o4 + q5.len();
    lemma_subrange_split(s, o4, q5, t6);
    lemma_parse_string_render(key_average(), s, o4);
    let o6 = o5 + 1;
    lemma_subrange_split(s, o5, q6, q7);
    assert(s.subrange(o5, o6)[0] == COLON);
    assert(s[o5] == COLON);
    lemma_parse_avg_render(a, b, c, s, o6);
    assert(key_fingerprint() != key_average()) by {
        assert(key_fingerprint().len() != key_average().len());
    }
}

/// Parsing the canonical rendered form of an entry recovers the entry.
#[verifier::rlimit(50)]
proof fn lemma_parse_entry_render(e: EntryModel, s: Seq<u8>, i: int)
    requires
        0 <= i,
        i + render_entry_spec(e).len() <= s.len(),
        s.subrange(i, i + render_entry_spec(e).len()) == render_entry_spec(e),
    ensures
        parse_entry_spec(s, i) == Some((e, i + render_entry_spec(e).len())),
{
    lemma_keys_plain();
    let q1 = render_string_spec(e.path);
    let q2 = seq![COLON, LBRACE];
    let q3 = body_text(e.hash, e.average.0, e.average.1, e.average.2);
    let q4 = seq![RBRACE];
    let t3 = q3 + q4;
    let t2 = q2 + t3;
    let t1 = q1 + t2;
    assert(render_entry_spec(e) =~= t1) by {
        assert(sep_fingerprint() =~= seq![COLON, LBRACE] + render_string_spec(key_fingerprint())
            + seq![COLON]);
        assert(sep_average() =~= seq![COMMA] + render_string_spec(key_average()) + seq![
            COLON,
            LBRACKET,
        ]);
    }
    let o1 = i + q1.len();
    lemma_subrange_split(s, i, q1, t2);
    lemma_parse_string_render(e.path, s, i);
    let o2 = o1 + 2;
    lemma_subrange_split(s, o1, q2, t3);
    assert(s.subrange(o1, o2)[0] == COLON && s.subrange(o1, o2)[1] == LBRACE);
    assert(s[o1] == COLON && s[o1 + 1] == LBRACE);
    let o3 = o2 + q3.len();
    lemma_subrange_split(s, o2, q3, q4);
    lemma_parse_body_render(e.hash, e.average.0, e.average.1, e.average.2, s, o2);
    let o4 = o3 + 1;
    assert(s.subrange(o3, o4)[0] == RBRACE);
    assert(s[o3] == RBRACE);
    assert((EntryModel {
        path: e.path,
        hash: e.hash,
        average: (e.average.0, e.average.1, e.average.2),
    }) =~= e);
}

/// Parsing the rendered forms of the remaining entries, each after its
/// comma, accumulates exactly those entries, provided no path repeats and
/// the list is closed by the brace.
proof fn lemma_parse_rest_render(tail: Seq<EntryModel>, acc: Seq<EntryModel>, s: Seq<u8>, i: int)
    requires
        0 <= i,
        i + render_rest_spec(tail).len() < s.len(),
        s.subrange(i, i + render_rest_spec(tail).len()) == render_rest_spec(tail),
        s[i + render_rest_spec(tail).len()] == RBRACE,
        forall|p: int, q: int|
            0 <= p < q < (acc + tail).len() ==> (acc + tail)[p].path != (acc + tail)[q].path,
    ensures
        parse_rest_spec(s, i, acc) == Some((acc + tail, i + render_rest_spec(tail).len())),
    decreases tail.len(),
{
    if tail.len() == 0 {
        assert(render_rest_spec(tail) =~= Seq::<u8>::empty());
        assert(s[i] == RBRACE);
        assert(skip_ws(s, i) == i);
        assert(acc + tail =~= acc);
    } else {
        let e = tail.first();
        let re = render_entry_spec(e);
        let rr = render_rest_spec(tail.drop_first());
        assert(render_rest_spec(tail) == seq![COMMA] + re + rr);
        assert(render_rest_spec(tail) =~= seq![COMMA] + (re + rr));
        lemma_subrange_split(s, i, seq![COMMA], re + rr);
        assert(s.subrange(i, i + 1)[0] == COMMA);
        assert(s[i] == COMMA);
        assert(skip_ws(s, i) == i);
        lemma_subrange_split(s, i + 1, re, rr);
        lemma_parse_entry_render(e, s, i + 1);
        lemma_render_entry_len(e);
        let j = i + 1 + re.len();
        assert(!has_path(acc, e.path)) by {
            let all = acc + tail;
            assert(all[acc.len() as int] == e);
            assert forall|k: int| 0 <= k < acc.len() implies acc[k].path != e.path by {
                assert(all[k] == acc[k]);
            }
        }
        assert(acc.push(e) + tail.drop_first() =~= acc + tail);
        lemma_parse_rest_render(tail.drop_first(), acc.push(e), s, j);
    }
}

/// Round-trip for a non-empty index.
#[verifier::rlimit(100)]
proof fn lemma_round_trip_nonempty(s: Seq<EntryModel>)
    requires
        s.len() > 0,
        forall|p: int, q: int| 0 <= p < q < s.len() ==> s[p].path != s[q].path,
    ensures
        parse_index_spec(render_index_spec(s)) == Some(s),
{
    let d = render_index_spec(s);
    let e = s.first();
    let re = render_entry_spec(e);
    let rr = render_rest_spec(s.drop_first());
    let brace = seq![LBRACE];
    let j: int = 1 + re.len() as int;
    let j2: int = j + rr.len() as int;
    assert(d == brace + (re + rr) + seq![RBRACE]) by {
        assert(render_entries_spec(s) == re + rr);
    }
    assert(d.len() == j2 + 1);
    assert(d =~= brace + re + (rr + seq![RBRACE]));
    lemma_mid_of_concat(d, brace, re, rr + seq![RBRACE]);
    lemma_parse_entry_render(e, d, 1);
    assert(d =~= (brace + re) + rr + seq![RBRACE]);
    lemma_mid_of_concat(d, brace + re, rr, seq![RBRACE]);
    assert(d[0] == LBRACE && d[j2] == RBRACE) by {
        assert((brace + (re + rr) + seq![RBRACE])[0] == LBRACE);
        assert((brace + (re + rr) + seq![RBRACE])[j2] == RBRACE);
    }
    assert(d[1] == QUOTE && d[1] != RBRACE) by {
        lemma_render_entry_len(e);
        assert(d.subrange(1, j)[0] == re[0]);
    }
    assert(skip_ws(d, 0) == 0 && skip_ws(d, 1) == 1 && skip_ws(d, j2 + 1) == j2 + 1);
    assert(seq![e] + s.drop_first() =~= s);
    lemma_parse_rest_render(s.drop_first(), seq![e], d, j);
    assert(parse_rest_spec(d, j, seq![e]) == Some((s, j2)));
}

/// Round-trip: parsing the rendered document of an index with distinct
/// paths yields exactly that index. Persisting and reloading changes
/// nothing.
pub proof fn lemma_index_round_trip(s: Seq<EntryModel>)
    requires
        forall|p: int, q: int| 0 <= p < q < s.len() ==> s[p].path != s[q].path,
    ensures
        parse_index_spec(render_index_spec(s)) == Some(s),
{
    let d = render_index_spec(s);
    assert(d[0] == LBRACE);
    if s.len() == 0 {
        assert(render_entries_spec(s) =~= Seq::<u8>::empty());
        assert(d =~= seq![LBRACE, RBRACE]);
        assert(skip_ws(d, 0) == 0 && skip_ws(d, 1) == 1 && skip_ws(d, 2) == 2);
        assert(parse_index_spec(d) == Some(Seq::<EntryModel>::empty()));
        assert(Seq::<EntryModel>::empty() =~= s);
    } else {
        lemma_round_trip_nonempty(s);
    }
}

/// Pairwise distinct paths.
pub open spec fn distinct_models(s: Seq<EntryModel>) -> bool {
    forall|p: int, q: int| 0 <= p < q < s.len() ==> s[p].path != s[q].path
}

/// Skips to the next non-whitespace position.
fn skip_ws_exec(s: &Vec<u8>, i: usize) -> (r: usize)
    ensures
        r as int == skip_ws(s@, i as int),
        i <= r,
    decreases s@.len() - i,
{
    if i < s.len() {
        let b = s[i];
        if b == 32 || b == 9 || b == 10 || b == 13 {
            return skip_ws_exec(s, i + 1);
        }
    }
    i
}

/// The value of one hex digit character.
fn hex_digit(b: u8) -> (r: Option<u8>)
    ensures
        match r {
            Some(v) => hex_digit_val(b) == Some(v as int),
            None => hex_digit_val(b) == None::<int>,
        },
{
    if 48 <= b && b <= 57 {
        Some(b - 48)
    } else if 97 <= b && b <= 102 {
        Some(b - 87)
    } else if 65 <= b && b <= 70 {
        Some(b - 55)
    } else {
        None
    }
}

/// What a single-letter escape stands for.
fn unescape(c: u8) -> (r: Option<u8>)
    ensures
        r == unescape_char(c),
{
    if c == QUOTE {
        Some(QUOTE)
    } else if c == BACKSLASH {
        Some(BACKSLASH)
    } else if c == 47 {
        Some(47)
    } else if c == 98 {
        Some(8)
    } else if c == 102 {
        Some(12)
    } else if c == 110 {
        Some(10)
    } else if c == 114 {
        Some(13)
    } else if c == 116 {
        Some(9)
    } else {
        None
    }
}

/// Scans a quoted string's body from position `i`, unescaping as it goes.
fn parse_string_body_exec(s: &Vec<u8>, i: usize) -> (r: Option<(Vec<u8>, usize)>)
    ensures
        match r {
            Some((v, j)) => parse_string_body(s@, i as int) == Some((v@, j as int)),
            None => parse_string_body(s@, i as int) == None::<(Seq<u8>, int)>,
        },
    decreases s@.len() - i,
{
    if i >= s.len() {
        return None;
    }
    let b = s[i];
    if b == QUOTE {
        let v: Vec<u8> = Vec::new();
        proof {
            assert(v@ =~= Seq::<u8>::empty());
        }
        return Some((v, i + 1));
    }
    if b == BACKSLASH {
        if i + 1 < s.len() && s[i + 1] == ESC_U {
            if s.len() - i > 5 {
                let h1 = match hex_digit(s[i + 2]) {
                    Some(h) => h,
                    None => {
                        return None;
                    },
                };
                let h2 = match hex_digit(s[i + 3]) {
                    Some(h) => h,
                    None => {
                        return None;
                    },
                };
                let h3 = match hex_digit(s[i + 4]) {
                    Some(h) => h,
                    None => {
                        return None;
                    },
                };
                let h4 = match hex_digit(s[i + 5]) {
                    Some(h) => h,
                    None => {
                        return None;
                    },
                };
                let v: u32 = (h1 as u32) * 4096 + (h2 as u32) * 256 + (h3 as u32) * 16 + (
                h4 as u32);
                if v < 128 {
                    match parse_string_body_exec(s, i + 6) {
                        Some((mut t, j)) => {
                            let ghost tail = t@;
                            t.insert(0, v as u8);
                            proof {
                                assert(t@ =~= seq![(v as u8)] + tail);
                            }
                            return Some((t, j));
                        },
                        None => {
                            return None;
                        },
                    }
                } else {
                    return None;
                }
            } else {
                return None;
            }
        }
        if i + 1 < s.len() {
            match unescape(s[i + 1]) {
                Some(c) => {
                    match parse_string_body_exec(s, i + 2) {
                        Some((mut t, j)) => {
                            let ghost tail = t@;
                            t.insert(0, c);
                            proof {
                                assert(t@ =~= seq![c] + tail);
                            }
                            return Some((t, j));
                        },
                        None => {
                            return None;
                        },
                    }
                },
                None => {
                    return None;
                },
            }
        }
        return None;
    }
    if b < 32 {
        return None;
    }
    match parse_string_body_exec(s, i + 1) {
        Some((mut t, j)) => {
            let ghost tail = t@;
            t.insert(0, b);
            proof {
                assert(t@ =~= seq![b] + tail);
            }
            Some((t, j))
        },
        None => None,
    }
}

/// Reads a quoted string starting exactly at `i`.
fn parse_string_exec(s: &Vec<u8>, i: usize) -> (r: Option<(Vec<u8>, usize)>)
    ensures
        match r {
            Some((v, j)) => parse_string_spec(s@, i as int) == Some((v@, j as int)),
            None => parse_string_spec(s@, i as int) == None::<(Seq<u8>, int)>,
        },
{
    if i < s.len() && s[i] == QUOTE {
        parse_string_body_exec(s, i + 1)
    } else {
        None
    }
}

/// Reads a minimal-decimal channel value at position `i`.
fn parse_u8_exec(s: &Vec<u8>, i: usize) -> (r: Option<(u8, usize)>)
    ensures
        match r {
            Some((v, j)) => parse_u8_sp(s@, i as int) == Some((v, j as int)),
            None => parse_u8_sp(s@, i as int) == None::<(u8, int)>,
        },
{
    let n: usize = s.len();
    if i >= n || s[i] < 48 || s[i] > 57 {
        return None;
    }
    if s[i] == 48 {
        return Some((0, i + 1));
    }
    if i + 1 >= n || s[i + 1] < 48 || s[i + 1] > 57 {
        return Some((s[i] - 48, i + 1));
    }
    if i + 2 >= n || s[i + 2] < 48 || s[i + 2] > 57 {
        return Some(((s[i] - 48) * 10 + (s[i + 1] - 48), i + 2));
    }
    if i + 3 < n && s[i + 3] >= 48 && s[i + 3] <= 57 {
        return None;
    }
    let v: u32 = ((s[i] - 48) as u32) * 100 + ((s[i + 1] - 48) as u32) * 10 + ((s[i + 2]
        - 48) as u32);
    if v <= 255 {
        Some((v as u8, i + 3))
    } else {
        None
    }
}

/// The letters of the key `fingerprint`, as a buffer.
fn lit_key_fingerprint() -> (r: Vec<u8>)
    ensures
        r@ == key_fingerprint(),
{
    let mut v: Vec<u8> = Vec::new();
    v.push(102);
    v.push(105);
    v.push(110);
    v.push(103);
    v.push(101);
    v.push(114);
    v.push(112);
    v.push(114);
    v.push(105);
    v.push(110);
    v.push(116);
    proof {
        assert(v@ =~= key_fingerprint());
    }
    v
}

/// The letters of the key `average`, as a buffer.
fn lit_key_average() -> (r: Vec<u8>)
    ensures
        r@ == key_average(),
{
    let mut v: Vec<u8> = Vec::new();
    v.push(97);
    v.push(118);
    v.push(101);
    v.push(114);
    v.push(97);
    v.push(103);
    v.push(101);
    proof {
        assert(v@ =~= key_average());
    }
    v
}

/// Reads the three-channel color array from position `i0`.
fn parse_avg_exec(s: &Vec<u8>, i0: usize) -> (r: Option<((u8, u8, u8), usize)>)
    ensures
        match r {
            Some((avg, j)) => parse_avg_spec(s@, i0 as int) == Some((avg, j as int)),
            None => parse_avg_spec(s@, i0 as int) == None::<((u8, u8, u8), int)>,
        },
{
    let i = skip_ws_exec(s, i0);
    if !(i < s.len() && s[i] == LBRACKET) {
        return None;
    }
    let (a, ja) = match parse_u8_exec(s, skip_ws_exec(s, i + 1)) {
        Some(x) => x,
        None => {
            return None;
        },
    };
    let c1 = skip_ws_exec(s, ja);
    if !(c1 < s.len() && s[c1] == COMMA) {
        return None;
    }
    let (b, jb) = match parse_u8_exec(s, skip_ws_exec(s, c1 + 1)) {
        Some(x) => x,
        None => {
            return None;
        },
    };
    let c2 = skip_ws_exec(s, jb);
    if !(c2 < s.len() && s[c2] == COMMA) {
        return None;
    }
    let (c, jc) = match parse_u8_exec(s, skip_ws_exec(s, c2 + 1)) {
        Some(x) => x,
        None => {
            return None;
        },
    };
    let e = skip_ws_exec(s, jc);
    if e < s.len() && s[e] == RBRACKET {
        Some(((a, b, c), e + 1))
    } else {
        None
    }
}

/// Reads the two fields of an entry object, in either order.
fn parse_entry_body_exec(s: &Vec<u8>, i0: usize) -> (r: Option<(Vec<u8>, (u8, u8, u8), usize)>)
    ensures
        match r {
            Some((hash, avg, j)) => parse_entry_body(s@, i0 as int) == Some((hash@, avg, j as int)),
            None => parse_entry_body(s@, i0 as int) == None::<(Seq<u8>, (u8, u8, u8), int)>,
        },
{
    let (key1, j1) = match parse_string_exec(s, skip_ws_exec(s, i0)) {
        Some(x) => x,
        None => {
            return None;
        },
    };
    let c = skip_ws_exec(s, j1);
    if !(c < s.len() && s[c] == COLON) {
        return None;
    }
    let litf = lit_key_fingerprint();
    let lita = lit_key_average();
    if crate::index::bytes_eq(&key1, &litf) {
        let (hash, j2) = match parse_string_exec(s, skip_ws_exec(s, c + 1)) {
            Some(x) => x,
            None => {
                return None;
            },
        };
        let cm = skip_ws_exec(s, j2);
        if !(cm < s.len() && s[cm] == COMMA) {
            return None;
        }
        let (key2, j3) = match parse_string_exec(s, skip_ws_exec(s, cm + 1)) {
            Some(x) => x,
            None => {
                return None;
            },
        };
        if !crate::index::bytes_eq(&key2, &lita) {
            return None;
        }
        let c2 = skip_ws_exec(s, j3);
        if !(c2 < s.len() && s[c2] == COLON) {
            return None;
        }
        match parse_avg_exec(s, c2 + 1) {
            Some((avg, j4)) => Some((hash, avg, j4)),
            None => None,
        }
    } else if crate::index::bytes_eq(&key1, &lita) {
        let (avg, j2) = match parse_avg_exec(s, c + 1) {
            Some(x) => x,
            None => {
                return None;
            },
        };
        let cm = skip_ws_exec(s, j2);
        if !(cm < s.len() && s[cm] == COMMA) {
            return None;
        }
        let (key2, j3) = match parse_string_exec(s, skip_ws_exec(s, cm + 1)) {
            Some(x) => x,
            None => {
                return None;
            },
        };
        if !crate::index::bytes_eq(&key2, &litf) {
            return None;
        }
        let c2 = skip_ws_exec(s, j3);
        if !(c2 < s.len() && s[c2] == COLON) {
            return None;
        }
        match parse_string_exec(s, skip_ws_exec(s, c2 + 1)) {
            Some((hash, j4)) => Some((hash, avg, j4)),
            None => None,
        }
    } else {
        None
    }
}

/// Reads one entry from position `i0`.
fn parse_entry_exec(s: &Vec<u8>, i0: usize) -> (r: Option<(IndexEntry, usize)>)
    ensures
        match r {
            Some((e, j)) => parse_entry_spec(s@, i0 as int) == Some((e@, j as int)),
            None => parse_entry_spec(s@, i0 as int) == None::<(EntryModel, int)>,
        },
{
    let (path, j1) = match parse_string_exec(s, skip_ws_exec(s, i0)) {
        Some(x) => x,
        None => {
            return None;
        },
    };
    let c = skip_ws_exec(s, j1);
    if !(c < s.len() && s[c] == COLON) {
        return None;
    }
    let b = skip_ws_exec(s, c + 1);
    if !(b < s.len() && s[b] == LBRACE) {
        return None;
    }
    let (hash, avg, j2) = match parse_entry_body_exec(s, b + 1) {
        Some(x) => x,
        None => {
            return None;
        },
    };
    let e = skip_ws_exec(s, j2);
    if !(e < s.len() && s[e] == RBRACE) {
        return None;
    }
    let entry = IndexEntry { path, data: IndexData { hash, average: avg } };
    proof {
        assert(parse_entry_spec(s@, i0 as int) == Some((entry@, (e + 1) as int)));
    }
    Some((entry, e + 1))
}

/// Whether the accumulated entries already hold this path.
fn find_path(entries: &Vec<IndexEntry>, p: &Vec<u8>) -> (r: bool)
    ensures
        r == has_path(entries@.map_values(|e: IndexEntry| e@), p@),
{
    let ghost models = entries@.map_values(|e: IndexEntry| e@);
    let n: usize = entries.len();
    let mut k: usize = 0;
    while k < n
        invariant
            0 <= k <= n,
            n == entries@.len(),
            models == entries@.map_values(|e: IndexEntry| e@),
            forall|t: int| 0 <= t < k ==> models[t].path != p@,
        decreases n - k,
    {
        if crate::index::bytes_eq(&entries[k].path, p) {
            proof {
                assert(models[k as int].path == p@);
            }
            return true;
        }
        k = k + 1;
    }
    false
}

/// Reads the remaining comma-led entries from position `i0`.
fn parse_rest_exec(s: &Vec<u8>, i0: usize, acc: Vec<IndexEntry>) -> (r: Option<
    (Vec<IndexEntry>, usize),
>)
    ensures
        match r {
            Some((v, j)) => parse_rest_spec(s@, i0 as int, acc@.map_values(|e: IndexEntry| e@))
                == Some((v@.map_values(|e: IndexEntry| e@), j as int)) && (distinct_models(
                acc@.map_values(|e: IndexEntry| e@),
            ) ==> distinct_models(v@.map_values(|e: IndexEntry| e@))),
            None => parse_rest_spec(s@, i0 as int, acc@.map_values(|e: IndexEntry| e@))
                == None::<(Seq<EntryModel>, int)>,
        },
    decreases s@.len() - i0,
{
    let ghost accv = acc@.map_values(|e: IndexEntry| e@);
    let i = skip_ws_exec(s, i0);
    if i < s.len() && s[i] == COMMA {
        match parse_entry_exec(s, i + 1) {
            Some((e, j)) => {
                if i0 < j && j <= s.len() && !find_path(&acc, &e.path) {
                    let ghost em = e@;
                    let mut acc2 = acc;
                    acc2.push(e);
                    proof {
                        assert(acc2@.map_values(|x: IndexEntry| x@) =~= accv.push(em));
                        if distinct_models(accv) {
                            assert(distinct_models(accv.push(em))) by {
                                assert forall|p: int, q: int|
                                    0 <= p < q < accv.push(em).len() implies accv.push(em)[p].path
                                    != accv.push(em)[q].path by {
                                    if q == accv.len() as int {
                                        assert(!has_path(accv, em.path));
                                        assert(accv[p].path != em.path);
                                    }
                                }
                            }
                        }
                    }
                    parse_rest_exec(s, j, acc2)
                } else {
                    None
                }
            },
            None => None,
        }
    } else {
        Some((acc, i))
    }
}

/// Reads the persisted index document back, accepting the standard JSON
/// concrete syntax of its structure; anything else is the fatal
/// corrupt-index condition.
pub fn parse_index(bytes: &Vec<u8>) -> (r: Result<ContentIndex, MosaicError>)
    ensures
        match r {
            Ok(idx) => parse_index_spec(bytes@) == Some(idx@) && idx.wf(),
            Err(e) => e == MosaicError::MalformedIndex && parse_index_spec(bytes@) == None::<
                Seq<EntryModel>,
            >,
        },
{
    let i = skip_ws_exec(bytes, 0);
    if !(i < bytes.len() && bytes[i] == LBRACE) {
        return Err(MosaicError::MalformedIndex);
    }
    let j = skip_ws_exec(bytes, i + 1);
    if j < bytes.len() && bytes[j] == RBRACE {
        if skip_ws_exec(bytes, j + 1) == bytes.len() {
            let idx = ContentIndex { entries: Vec::new() };
            proof {
                assert(idx@ =~= Seq::<EntryModel>::empty());
            }
            return Ok(idx);
        } else {
            return Err(MosaicError::MalformedIndex);
        }
    }
    let (e, j1) = match parse_entry_exec(bytes, i + 1) {
        Some(x) => x,
        None => {
            return Err(MosaicError::MalformedIndex);
        },
    };
    let ghost em = e@;
    let mut acc: Vec<IndexEntry> = Vec::new();
    acc.push(e);
    proof {
        assert(acc@.map_values(|x: IndexEntry| x@) =~= seq![em]);
        assert(distinct_models(seq![em]));
    }
    let (v, j2) = match parse_rest_exec(bytes, j1, acc) {
        Some(x) => x,
        None => {
            return Err(MosaicError::MalformedIndex);
        },
    };
    if j2 < bytes.len() && bytes[j2] == RBRACE && skip_ws_exec(bytes, j2 + 1) == bytes.len() {
        let idx = ContentIndex { entries: v };
        proof {
            assert(idx.wf());
        }
        Ok(idx)
    } else {
        Err(MosaicError::MalformedIndex)
    }
}

} // verus!
