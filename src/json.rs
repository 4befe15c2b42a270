//! Rendering a node as JSON, for debugging: strings with every byte that is
//! not ASCII-graphic hex-escaped, integers in decimal, lists and dictionaries
//! on one line or indented.
use vstd::prelude::*;

use crate::decode::Style;
use crate::navigate::{int_value, int_value_at, items, lemma_dict_keys, lemma_items, str_bytes, str_value, stream_ok};
use crate::scan::ascii_chars;
use crate::structure::tokens_wf;
use crate::token::{BdecodeToken, BdecodeTokenType, TokenView};
use crate::tokenizer::views;

verus! {

/// `n` spaces.
pub open spec fn blanks(n: nat) -> Seq<u8> {
    Seq::new(n, |_i: int| 32u8)
}

/// The lower-case hexadecimal digit of `n < 16`.
pub open spec fn hex_digit(n: u8) -> u8 {
    if n < 10 {
        (48 + n) as u8
    } else {
        (87 + n) as u8
    }
}

/// A byte as it stands in a JSON string: a space or an ASCII-graphic byte
/// other than `"` as itself, every other byte as `\xHH`.
pub open spec fn escape_byte(b: u8) -> Seq<u8> {
    if b == 32 || (33 <= b <= 126 && b != 34) {
        seq![b]
    } else {
        seq![92u8, 120u8, hex_digit(b / 16), hex_digit(b % 16)]
    }
}

/// Bytes as they stand in a JSON string.
pub open spec fn escape_bytes(s: Seq<u8>) -> Seq<u8>
    decreases s.len(),
{
    if s.len() == 0 {
        seq![]
    } else {
        escape_bytes(s.drop_last()) + escape_byte(s.last())
    }
}

/// The decimal digits of `n`.
pub open spec fn decimal(n: nat) -> Seq<u8>
    decreases n,
{
    if n < 10 {
        seq![(48 + n) as u8]
    } else {
        decimal(n / 10).push((48 + n % 10) as u8)
    }
}

/// An integer in decimal, with a `'-'` when negative.
pub open spec fn int_text(v: int) -> Seq<u8> {
    if v < 0 {
        seq![45u8] + decimal((-v) as nat)
    } else {
        decimal(v as nat)
    }
}

/// The source text of the integer at `i`, between `'i'` and `'e'`.
pub open spec fn int_source(buf: Seq<u8>, t: Seq<TokenView>, i: int) -> Seq<u8> {
    buf.subrange(t[i].offset + 1int, t[i + 1].offset - 1)
}

/// The indentation of the items of a container indented by `style`.
pub open spec fn inner(style: Style) -> Style {
    match style {
        Style::Compact => Style::Compact,
        Style::Pretty(span) => Style::Pretty((span + 4) as usize),
    }
}

/// The separator between two items.
pub open spec fn separator(style: Style) -> Seq<u8> {
    match style {
        Style::Compact => seq![44u8, 32u8],
        Style::Pretty(_) => seq![44u8, 10u8],
    }
}

/// The spaces before an item.
pub open spec fn lead(style: Style) -> Seq<u8> {
    match style {
        Style::Compact => seq![],
        Style::Pretty(span) => blanks((span + 4) as nat),
    }
}

/// The JSON of the node at `i`.
pub open spec fn json(buf: Seq<u8>, t: Seq<TokenView>, i: int, style: Style) -> Seq<u8>
    decreases t.len() - i, 2int, 0int,
{
    if 0 <= i < t.len() {
        let body = items_json(buf, t, i, items(t, i), 0, style);
        match t[i].kind {
            BdecodeTokenType::Str => seq![34u8] + escape_bytes(str_bytes(buf, t, i)) + seq![34u8],
            BdecodeTokenType::Int => match int_value(buf, t, i) {
                Ok(v) => int_text(v),
                Err(_) => int_source(buf, t, i),
            },
            BdecodeTokenType::List => match style {
                Style::Compact => seq![91u8] + body + seq![93u8],
                Style::Pretty(span) => seq![91u8, 10u8] + body + seq![10u8] + blanks(span as nat) + seq![93u8],
            },
            BdecodeTokenType::Dict => match style {
                Style::Compact => seq![123u8, 32u8] + body + seq![32u8, 125u8],
                Style::Pretty(span) => seq![123u8, 10u8] + body + seq![10u8] + blanks(span as nat) + seq![125u8],
            },
            _ => seq![],
        }
    } else {
        seq![]
    }
}

/// The JSON of item `j` of the container at `parent`: an element of a list,
/// or a key with its value for a dictionary.
pub open spec fn item_json(buf: Seq<u8>, t: Seq<TokenView>, parent: int, k: int, style: Style) -> Seq<u8>
    decreases t.len() - parent, 0int, 0int,
{
    if parent < k < t.len() {
        if t[parent].kind == BdecodeTokenType::Dict {
            lead(style) + json(buf, t, k, Style::Compact) + seq![58u8, 32u8] + json(buf, t, k + 1, inner(style))
        } else {
            lead(style) + json(buf, t, k, inner(style))
        }
    } else {
        seq![]
    }
}

/// The JSON of the items `keys[j..]` of the container at `parent`, with separators.
pub open spec fn items_json(buf: Seq<u8>, t: Seq<TokenView>, parent: int, keys: Seq<int>, j: int, style: Style) -> Seq<u8>
    decreases t.len() - parent, 1int, keys.len() - j,
{
    if 0 <= j < keys.len() {
        item_json(buf, t, parent, keys[j], style) + (if j + 1 < keys.len() {
            separator(style)
        } else {
            seq![]
        }) + items_json(buf, t, parent, keys, j + 1, style)
    } else {
        seq![]
    }
}

/// Every byte is ASCII.
pub open spec fn all_ascii(s: Seq<u8>) -> bool {
    forall|k: int| 0 <= k < s.len() ==> s[k] < 128
}

/// The indentation of `style` grows by 4 per level for `depth` levels
/// without exceeding `usize`.
pub open spec fn style_fits(style: Style, depth: int) -> bool {
    match style {
        Style::Compact => true,
        Style::Pretty(span) => span + 4 * depth <= usize::MAX,
    }
}

fn hex_byte(n: u8) -> (r: u8)
    requires
        n < 16,
    ensures
        r == hex_digit(n),
        r < 128,
{
    if n < 10 {
        48 + n
    } else {
        87 + n
    }
}

fn push_escaped(out: &mut Vec<u8>, b: u8)
    ensures
        final(out)@ == old(out)@ + escape_byte(b),
        all_ascii(old(out)@) ==> all_ascii(final(out)@),
{
    if b == 32 || (33 <= b && b <= 126 && b != 34) {
        out.push(b);
        assert(final(out)@ =~= old(out)@ + escape_byte(b));
    } else {
        out.push(92);
        out.push(120);
        out.push(hex_byte(b / 16));
        out.push(hex_byte(b % 16));
        assert(out@ =~= old(out)@ + escape_byte(b));
    }
}

fn push_decimal(out: &mut Vec<u8>, n: u64)
    ensures
        final(out)@ == old(out)@ + decimal(n as nat),
        all_ascii(old(out)@) ==> all_ascii(final(out)@),
    decreases n,
{
    if n >= 10 {
        push_decimal(out, n / 10);
    }
    out.push(48 + (n % 10) as u8);
    assert(out@ =~= old(out)@ + decimal(n as nat));
}

fn push_blanks(out: &mut Vec<u8>, n: usize)
    ensures
        final(out)@ == old(out)@ + blanks(n as nat),
        all_ascii(old(out)@) ==> all_ascii(final(out)@),
{
    let mut i: usize = 0;
    while i < n
        invariant
            i <= n,
            out@ == old(out)@ + blanks(i as nat),
            all_ascii(old(out)@) ==> all_ascii(out@),
        decreases n - i,
    {
        out.push(32);
        i += 1;
        assert(out@ =~= old(out)@ + blanks(i as nat));
    }
}

fn push_escaped_bytes(out: &mut Vec<u8>, s: &[u8])
    ensures
        final(out)@ == old(out)@ + escape_bytes(s@),
        all_ascii(old(out)@) ==> all_ascii(final(out)@),
{
    let mut j: usize = 0;
    while j < s.len()
        invariant
            j <= s@.len(),
            out@ == old(out)@ + escape_bytes(s@.subrange(0, j as int)),
            all_ascii(old(out)@) ==> all_ascii(out@),
        decreases s@.len() - j,
    {
        let ghost before = out@;
        push_escaped(out, s[j]);
        proof {
            assert(s@.subrange(0, j + 1).drop_last() =~= s@.subrange(0, j as int));
            assert(out@ =~= old(out)@ + escape_bytes(s@.subrange(0, j + 1)));
        }
        j += 1;
    }
    assert(s@.subrange(0, s@.len() as int) =~= s@);
}

/// Appends the JSON of the node at `i` to `out`.
#[verifier::rlimit(40)]
fn render(buffer: &[u8], tokens: &[BdecodeToken], i: usize, style: Style, out: &mut Vec<u8>)
    requires
        stream_ok(buffer@, views(tokens@)),
        i < tokens@.len(),
        style_fits(style, tokens@.len() - i),
    ensures
        final(out)@ == old(out)@ + json(buffer@, views(tokens@), i as int, style),
        all_ascii(old(out)@) ==> all_ascii(final(out)@),
    decreases tokens@.len() - i, 1int,
{
    let ghost t = views(tokens@);
    let ghost buf = buffer@;
    let kind = tokens[i].node_type();
    if kind == BdecodeTokenType::Str {
        out.push(34);
        let s = str_value(buffer, tokens, i);
        push_escaped_bytes(out, s);
        out.push(34);
        assert(out@ =~= old(out)@ + json(buf, t, i as int, style));
    } else if kind == BdecodeTokenType::Int {
        proof {
            crate::navigate::lemma_int_token(buf, t, i as int);
            crate::scan::lemma_dec_digits(buf, crate::structure::int_digits_start(buf, t[i as int]), t[i + 1].offset - 1);
        }
        let r = int_value_at(buffer, tokens, i);
        match r {
            Ok(v) => {
                assert(int_value(buf, t, i as int) is Ok);
                assert(v as int == int_value(buf, t, i as int)->Ok_0);
                assert(v >= -9223372036854775807i64);
                if v < 0 {
                    out.push(45);
                    push_decimal(out, (-v) as u64);
                } else {
                    push_decimal(out, v as u64);
                }
                assert(out@ =~= old(out)@ + json(buf, t, i as int, style));
            },
            Err(_) => {
                let o = tokens[i].offset() as usize;
                let e = tokens[i + 1].offset() as usize - 1;
                let mut j: usize = o + 1;
                while j < e
                    invariant
                        o + 1 <= j <= e,
                        e < buf.len(),
                        buf == buffer@,
                        out@ == old(out)@ + buf.subrange(o + 1, j as int),
                        all_ascii(old(out)@) ==> all_ascii(out@),
                        forall|k: int| o + 1 <= k < e ==> buf[k] < 128,
                    decreases e - j,
                {
                    out.push(buffer[j]);
                    j += 1;
                    assert(out@ =~= old(out)@ + buf.subrange(o + 1, j as int));
                }
                assert(out@ =~= old(out)@ + json(buf, t, i as int, style));
            },
        }
    } else if kind == BdecodeTokenType::List || kind == BdecodeTokenType::Dict {
        let is_dict = kind == BdecodeTokenType::Dict;
        if is_dict {
            out.push(123);
        } else {
            out.push(91);
        }
        match style {
            Style::Compact => {
                if is_dict {
                    out.push(32);
                }
            },
            Style::Pretty(_) => {
                out.push(10);
            },
        }
        let (keys, _n) = crate::navigate::gen_item_indexes(tokens, i);
        let ghost ks = items(t, i as int);
        proof {
            lemma_items(buf, t, i as int);
            if is_dict {
                lemma_dict_keys(buf, t, i as int);
            }
            assert(crate::navigate::as_ints(keys@) =~= ks);
        }
        let ghost opened = out@;
        let mut j: usize = 0;
        while j < keys.len()
            invariant
                stream_ok(buf, t),
                t == views(tokens@),
                buf == buffer@,
                i < t.len(),
                style_fits(style, tokens@.len() - i),
                is_dict == (t[i as int].kind == BdecodeTokenType::Dict),
                t[i as int].kind == BdecodeTokenType::List || t[i as int].kind == BdecodeTokenType::Dict,
                keys@.len() == ks.len(),
                ks == items(t, i as int),
                forall|k: int| 0 <= k < keys@.len() ==> keys@[k] as int == #[trigger] ks[k],
                forall|k: int| 0 <= k < ks.len() ==> i < #[trigger] ks[k] < t.len() - 1,
                is_dict ==> forall|k: int| 0 <= k < ks.len() ==> t[#[trigger] ks[k]].kind == BdecodeTokenType::Str,
                j <= keys@.len(),
                out@ + items_json(buf, t, i as int, ks, j as int, style) == opened + items_json(buf, t, i as int, ks, 0, style),
                all_ascii(old(out)@) ==> all_ascii(out@),
                all_ascii(old(out)@) ==> all_ascii(opened),
            decreases keys@.len() - j,
        {
            let k = keys[j];
            let ghost before = out@;
            assert(ks[j as int] == k as int);
            render_item(buffer, tokens, i, k as usize, style, out);
            if j + 1 < keys.len() {
                out.push(44);
                match style {
                    Style::Compact => {
                        out.push(32);
                    },
                    Style::Pretty(_) => {
                        out.push(10);
                    },
                }
            }
            proof {
                let sep = if j + 1 < ks.len() { separator(style) } else { seq![] };
                assert(out@ =~= before + item_json(buf, t, i as int, k as int, style) + sep);
                assert(items_json(buf, t, i as int, ks, j as int, style) == item_json(buf, t, i as int, ks[j as int], style) + sep + items_json(buf, t, i as int, ks, j + 1, style));
                assert(out@ + items_json(buf, t, i as int, ks, j + 1, style) =~= before + items_json(buf, t, i as int, ks, j as int, style));
            }
            j += 1;
        }
        let ghost filled = out@;
        match style {
            Style::Compact => {
                if is_dict {
                    out.push(32);
                }
            },
            Style::Pretty(span) => {
                out.push(10);
                push_blanks(out, span);
            },
        }
        if is_dict {
            out.push(125);
        } else {
            out.push(93);
        }
        proof {
            assert(items_json(buf, t, i as int, ks, j as int, style) == Seq::<u8>::empty());
            assert(filled =~= opened + items_json(buf, t, i as int, ks, 0, style));
            assert(out@ =~= old(out)@ + json(buf, t, i as int, style));
        }
    } else {
        assert(out@ =~= old(out)@ + json(buf, t, i as int, style));
    }
}

/// Appends the JSON of item `k` of the container at `parent` to `out`.
fn render_item(buffer: &[u8], tokens: &[BdecodeToken], parent: usize, k: usize, style: Style, out: &mut Vec<u8>)
    requires
        stream_ok(buffer@, views(tokens@)),
        parent < k < tokens@.len() - 1,
        style_fits(style, tokens@.len() - parent),
    ensures
        final(out)@ == old(out)@ + item_json(buffer@, views(tokens@), parent as int, k as int, style),
        all_ascii(old(out)@) ==> all_ascii(final(out)@),
    decreases tokens@.len() - parent, 0int,
{
    let ghost t = views(tokens@);
    let ghost buf = buffer@;
    let inner_style = match style {
        Style::Compact => Style::Compact,
        Style::Pretty(span) => Style::Pretty(span + 4),
    };
    assert(inner_style == inner(style));
    match style {
        Style::Compact => {},
        Style::Pretty(span) => {
            push_blanks(out, span + 4);
        },
    }
    assert(out@ =~= old(out)@ + lead(style));
    let ghost led = out@;
    if tokens[parent].node_type() == BdecodeTokenType::Dict {
        render(buffer, tokens, k, Style::Compact, out);
        let ghost a = out@;
        out.push(58);
        out.push(32);
        let ghost b = out@;
        render(buffer, tokens, k + 1, inner_style, out);
        proof {
            assert(item_json(buf, t, parent as int, k as int, style) == lead(style) + json(buf, t, k as int, Style::Compact) + seq![58u8, 32u8] + json(buf, t, k + 1, inner(style)));
            assert(b =~= a + seq![58u8, 32u8]);
            assert(out@ =~= old(out)@ + item_json(buf, t, parent as int, k as int, style));
        }
    } else {
        render(buffer, tokens, k, inner_style, out);
        proof {
            assert(item_json(buf, t, parent as int, k as int, style) == lead(style) + json(buf, t, k as int, inner(style)));
            assert(out@ =~= old(out)@ + item_json(buf, t, parent as int, k as int, style));
        }
    }
}

/// The JSON of the node at `i` as a string.
pub fn json_string(buffer: &[u8], tokens: &[BdecodeToken], i: usize, style: Style) -> (r: String)
    requires
        stream_ok(buffer@, views(tokens@)),
        i < tokens@.len(),
        style_fits(style, tokens@.len() - i),
    ensures
        r@ == ascii_chars(json(buffer@, views(tokens@), i as int, style)),
{
    let mut out: Vec<u8> = Vec::new();
    render(buffer, tokens, i, style, &mut out);
    crate::scan::ascii_string(out)
}

/// A byte as it stands in a JSON string.
pub fn escape_char(byte: u8) -> (r: String)
    ensures
        r@ == ascii_chars(escape_byte(byte)),
{
    let mut out: Vec<u8> = Vec::new();
    push_escaped(&mut out, byte);
    assert(out@ =~= escape_byte(byte));
    crate::scan::ascii_string(out)
}

/// Bytes as they stand in a JSON string.
pub fn escape_string(bytes: &[u8]) -> (r: String)
    ensures
        r@ == ascii_chars(escape_bytes(bytes@)),
{
    let mut out: Vec<u8> = Vec::new();
    push_escaped_bytes(&mut out, bytes);
    assert(out@ =~= escape_bytes(bytes@));
    crate::scan::ascii_string(out)
}

/// `span` spaces.
pub fn gen_blanks(span: usize) -> (r: String)
    ensures
        r@ == ascii_chars(blanks(span as nat)),
{
    let mut out: Vec<u8> = Vec::new();
    push_blanks(&mut out, span);
    assert(out@ =~= blanks(span as nat));
    crate::scan::ascii_string(out)
}

} // verus!
