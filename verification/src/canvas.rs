//! Presentation helpers for canvas cards: colors, edge sides, card kinds and
//! labels, and click selection.
use vstd::prelude::*;
use vstd::utf8::is_char_boundary;
use crate::text::{
    chars_of, enc, lower_ascii_range, lower_ascii_seq, next_line, string_of, text_lines, trim_ws,
    trimmed, vec_eq,
};
use crate::textmap::TextSet;

verus! {

/// The value of an ASCII hexadecimal digit.
pub open spec fn hex_val(b: u8) -> Option<int> {
    if 0x30 <= b <= 0x39 {
        Some(b - 0x30)
    } else if 0x61 <= b <= 0x66 {
        Some(b - 0x61 + 10)
    } else if 0x41 <= b <= 0x46 {
        Some(b - 0x41 + 10)
    } else {
        None
    }
}

/// `u8::from_str_radix(_, 16)` on two bytes: a `+` and a digit, or two digits.
pub open spec fn hex_pair(b0: u8, b1: u8) -> Option<u8> {
    if b0 == 0x2b {
        match hex_val(b1) {
            Some(v) => Some(v as u8),
            None => None,
        }
    } else {
        match (hex_val(b0), hex_val(b1)) {
            (Some(h), Some(l)) => Some((h * 16 + l) as u8),
            _ => None,
        }
    }
}

/// A channel, grey (128) where it did not parse.
pub open spec fn or_grey(o: Option<u8>) -> u8 {
    match o {
        Some(v) => v,
        None => 128,
    }
}

/// The preset colors `1` to `6`.
pub open spec fn palette(t: Seq<char>) -> Option<(u8, u8, u8)> {
    if t == seq!['1'] {
        Some((0xd9, 0x55, 0x55))
    } else if t == seq!['2'] {
        Some((0xd9, 0x82, 0x2b))
    } else if t == seq!['3'] {
        Some((0xc4, 0x9a, 0x2a))
    } else if t == seq!['4'] {
        Some((0x4e, 0x9f, 0x6e))
    } else if t == seq!['5'] {
        Some((0x3e, 0x9b, 0xb5))
    } else if t == seq!['6'] {
        Some((0x80, 0x64, 0xa2))
    } else {
        None
    }
}

/// The hex digits of a `#` color, as bytes.
pub open spec fn hex_digits(t: Seq<char>) -> Seq<u8> {
    enc(t.skip(1))
}

/// Whether a color value can be read: a six- or eight-byte hex code must
/// split into byte pairs on character boundaries.
pub open spec fn color_ok(value: Option<Seq<char>>) -> bool {
    match value {
        None => true,
        Some(v) => {
            let t = trim_ws(v);
            let b = hex_digits(t);
            palette(t) is Some || !(t.len() > 0 && t[0] == '#') || !(b.len() == 6 || b.len() == 8)
                || (is_char_boundary(b, 2) && is_char_boundary(b, 4) && is_char_boundary(b, 6))
        },
    }
}

/// The RGBA color of a card: grey when unset or unknown, a preset for `1`
/// to `6`, or `#rrggbb` / `#rrggbbaa` with unreadable channels grey (and a
/// hex code of another length all grey, alpha included).
pub open spec fn color_spec(value: Option<Seq<char>>) -> Seq<u8> {
    match value {
        None => seq![128u8, 128, 128, 255],
        Some(v) => {
            let t = trim_ws(v);
            match palette(t) {
                Some((r, g, b)) => seq![r, g, b, 255u8],
                None => if !(t.len() > 0 && t[0] == '#') {
                    seq![128u8, 128, 128, 255]
                } else {
                    let b = hex_digits(t);
                    if b.len() == 6 {
                        seq![or_grey(hex_pair(b[0], b[1])), or_grey(hex_pair(b[2], b[3])), or_grey(hex_pair(b[4], b[5])), 255u8]
                    } else if b.len() == 8 {
                        seq![
                            or_grey(hex_pair(b[0], b[1])),
                            or_grey(hex_pair(b[2], b[3])),
                            or_grey(hex_pair(b[4], b[5])),
                            or_grey(hex_pair(b[6], b[7])),
                        ]
                    } else {
                        seq![128u8, 128, 128, 128]
                    }
                },
            }
        },
    }
}

pub open spec fn opt_chars(o: Option<&str>) -> Option<Seq<char>> {
    match o {
        Some(s) => Some(s@),
        None => None,
    }
}

fn hex_val_exec(b: u8) -> (r: Option<u8>)
    ensures
        match hex_val(b) {
            Some(v) => r == Some(v as u8),
            None => r is None,
        },
{
    if 0x30 <= b && b <= 0x39 {
        Some(b - 0x30)
    } else if 0x61 <= b && b <= 0x66 {
        Some(b - 0x61 + 10)
    } else if 0x41 <= b && b <= 0x46 {
        Some(b - 0x41 + 10)
    } else {
        None
    }
}

fn channel(b0: u8, b1: u8) -> (r: u8)
    ensures
        r == or_grey(hex_pair(b0, b1)),
{
    if b0 == 0x2b {
        match hex_val_exec(b1) {
            Some(v) => v,
            None => 128,
        }
    } else {
        match (hex_val_exec(b0), hex_val_exec(b1)) {
            (Some(h), Some(l)) => h * 16 + l,
            _ => 128,
        }
    }
}

fn palette_exec(t: &Vec<char>) -> (r: Option<(u8, u8, u8)>)
    ensures
        r == palette(t@),
{
    if t.len() != 1 {
        return None;
    }
    proof {
        assert(t@ =~= seq![t@[0]]);
    }
    match t[0] {
        '1' => Some((0xd9, 0x55, 0x55)),
        '2' => Some((0xd9, 0x82, 0x2b)),
        '3' => Some((0xc4, 0x9a, 0x2a)),
        '4' => Some((0x4e, 0x9f, 0x6e)),
        '5' => Some((0x3e, 0x9b, 0xb5)),
        '6' => Some((0x80, 0x64, 0xa2)),
        _ => None,
    }
}

/// The RGBA color of a card from its color setting.
pub fn parse_color(value: Option<&str>) -> (r: [u8; 4])
    requires
        color_ok(opt_chars(value)),
    ensures
        r@ == color_spec(opt_chars(value)),
{
    let raw = match value {
        None => {
            let r = [128u8, 128, 128, 255];
            proof {
                assert(r@ =~= color_spec(opt_chars(value)));
            }
            return r;
        },
        Some(v) => v,
    };
    let cs = chars_of(raw);
    let t = trimmed(&cs, 0, cs.len());
    proof {
        assert(cs@.subrange(0, cs@.len() as int) =~= cs@);
    }
    let tc = chars_of(&t);
    if let Some((r, g, b)) = palette_exec(&tc) {
        let out = [r, g, b, 255u8];
        proof {
            assert(out@ =~= color_spec(opt_chars(value)));
        }
        return out;
    }
    if !(tc.len() > 0 && tc[0] == '#') {
        let out = [128u8, 128, 128, 255];
        proof {
            assert(out@ =~= color_spec(opt_chars(value)));
        }
        return out;
    }
    let hex = string_of(&tc, 1, tc.len());
    proof {
        assert(tc@.subrange(1, tc@.len() as int) =~= tc@.skip(1));
    }
    let s = hex.as_str();
    let b = s.as_bytes();
    let n = b.len();
    let out = if n == 6 {
        [channel(b[0], b[1]), channel(b[2], b[3]), channel(b[4], b[5]), 255u8]
    } else if n == 8 {
        [channel(b[0], b[1]), channel(b[2], b[3]), channel(b[4], b[5]), channel(b[6], b[7])]
    } else {
        [128u8, 128, 128, 128]
    };
    proof {
        assert(out@ =~= color_spec(opt_chars(value)));
    }
    out
}

/// Whether `value` can be read as a color (see `color_ok`).
fn color_readable(value: Option<&str>) -> (b: bool)
    ensures
        b == color_ok(opt_chars(value)),
{
    let raw = match value {
        None => return true,
        Some(v) => v,
    };
    let cs = chars_of(raw);
    let t = trimmed(&cs, 0, cs.len());
    proof {
        assert(cs@.subrange(0, cs@.len() as int) =~= cs@);
    }
    let tc = chars_of(&t);
    if palette_exec(&tc).is_some() || !(tc.len() > 0 && tc[0] == '#') {
        return true;
    }
    let hex = string_of(&tc, 1, tc.len());
    proof {
        assert(tc@.subrange(1, tc@.len() as int) =~= tc@.skip(1));
    }
    let s = hex.as_str();
    let n = s.as_bytes().len();
    if n != 6 && n != 8 {
        return true;
    }
    s.is_char_boundary(2) && s.is_char_boundary(4) && s.is_char_boundary(6)
}

/// The RGBA color of a card from its color setting, or `None` when a hex code
/// of six or eight bytes does not split into byte pairs on character
/// boundaries (where `parse_color` cannot be called).
pub fn try_parse_color(value: Option<&str>) -> (r: Option<[u8; 4]>)
    ensures
        r is Some <==> color_ok(opt_chars(value)),
        r matches Some(c) ==> c@ == color_spec(opt_chars(value)),
{
    if color_readable(value) {
        Some(parse_color(value))
    } else {
        None
    }
}

/// The side of a card an edge attaches to.
#[derive(Clone, Copy, Debug, Eq, PartialEq, Structural)]
pub enum Side {
    Left,
    Right,
    Top,
    Bottom,
    Center,
}

/// The side named by `value` in any ASCII case; the center otherwise.
pub open spec fn side_spec(value: Option<Seq<char>>) -> Side {
    let k = match value {
        Some(v) => lower_ascii_seq(v),
        None => Seq::empty(),
    };
    if k == seq!['l', 'e', 'f', 't'] {
        Side::Left
    } else if k == seq!['r', 'i', 'g', 'h', 't'] {
        Side::Right
    } else if k == seq!['t', 'o', 'p'] {
        Side::Top
    } else if k == seq!['b', 'o', 't', 't', 'o', 'm'] {
        Side::Bottom
    } else {
        Side::Center
    }
}

fn is_word(k: &Vec<char>, w: &str) -> (r: bool)
    ensures
        r == (k@ == w@),
{
    let wc = chars_of(w);
    vec_eq(k, &wc)
}

/// The side of a card that an edge's side setting names.
pub fn side(value: Option<&str>) -> (r: Side)
    ensures
        r == side_spec(opt_chars(value)),
{
    proof {
        reveal_strlit("left");
        reveal_strlit("right");
        reveal_strlit("top");
        reveal_strlit("bottom");
        assert("left"@ =~= seq!['l', 'e', 'f', 't']);
        assert("right"@ =~= seq!['r', 'i', 'g', 'h', 't']);
        assert("top"@ =~= seq!['t', 'o', 'p']);
        assert("bottom"@ =~= seq!['b', 'o', 't', 't', 'o', 'm']);
    }
    let k = match value {
        Some(v) => {
            let cs = chars_of(v);
            proof {
                assert(cs@.subrange(0, cs@.len() as int) =~= cs@);
            }
            lower_ascii_range(&cs, 0, cs.len())
        },
        None => {
            let e: Vec<char> = Vec::new();
            proof {
                assert(e@ =~= Seq::<char>::empty());
            }
            e
        },
    };
    if is_word(&k, "left") {
        Side::Left
    } else if is_word(&k, "right") {
        Side::Right
    } else if is_word(&k, "top") {
        Side::Top
    } else if is_word(&k, "bottom") {
        Side::Bottom
    } else {
        Side::Center
    }
}

/// What a canvas card shows.
#[derive(Clone, Copy, Debug, Eq, PartialEq, Structural)]
pub enum NodeType {
    Text,
    File,
    Link,
    Group,
}

/// The texts of a canvas card that its presentation reads.
#[derive(Clone, Debug, PartialEq, Eq)]
pub struct CardText {
    pub id: String,
    pub kind: String,
    pub text: Option<String>,
    pub file: Option<String>,
    pub url: Option<String>,
}

pub open spec fn node_type_spec(kind: Seq<char>) -> NodeType {
    let k = lower_ascii_seq(kind);
    if k == seq!['f', 'i', 'l', 'e'] {
        NodeType::File
    } else if k == seq!['l', 'i', 'n', 'k'] || k == seq!['u', 'r', 'l'] {
        NodeType::Link
    } else if k == seq!['g', 'r', 'o', 'u', 'p'] {
        NodeType::Group
    } else {
        NodeType::Text
    }
}

/// The text a card previews: its text, else its file, else its url.
pub open spec fn preview_of(c: CardText) -> Option<Seq<char>> {
    match c.text {
        Some(t) => Some(t@),
        None => match c.file {
            Some(f) => Some(f@),
            None => match c.url {
                Some(u) => Some(u@),
                None => None,
            },
        },
    }
}

/// The first line of a text, empty when it has none.
pub open spec fn first_line(s: Seq<char>) -> Seq<char> {
    let ls = text_lines(s, 0);
    if ls.len() > 0 { ls[0] } else { Seq::empty() }
}

impl CardText {
    /// The kind of card, from its kind in any ASCII case.
    pub fn node_type(&self) -> (r: NodeType)
        ensures
            r == node_type_spec(self.kind@),
    {
        proof {
            reveal_strlit("file");
            reveal_strlit("link");
            reveal_strlit("url");
            reveal_strlit("group");
            assert("file"@ =~= seq!['f', 'i', 'l', 'e']);
            assert("link"@ =~= seq!['l', 'i', 'n', 'k']);
            assert("url"@ =~= seq!['u', 'r', 'l']);
            assert("group"@ =~= seq!['g', 'r', 'o', 'u', 'p']);
        }
        let cs = chars_of(&self.kind);
        proof {
            assert(cs@.subrange(0, cs@.len() as int) =~= cs@);
        }
        let k = lower_ascii_range(&cs, 0, cs.len());
        if is_word(&k, "file") {
            NodeType::File
        } else if is_word(&k, "link") || is_word(&k, "url") {
            NodeType::Link
        } else if is_word(&k, "group") {
            NodeType::Group
        } else {
            NodeType::Text
        }
    }

    /// The first line of the card's preview text, or of its id.
    pub fn card_label(&self) -> (r: String)
        ensures
            r@ == first_line(match preview_of(*self) {
                Some(p) => p,
                None => self.id@,
            }),
    {
        let src: &str = match &self.text {
            Some(t) => t.as_str(),
            None => match &self.file {
                Some(f) => f.as_str(),
                None => match &self.url {
                    Some(u) => u.as_str(),
                    None => self.id.as_str(),
                },
            },
        };
        let cs = chars_of(src);
        let nl = chars_of("\n");
        proof {
            reveal_strlit("\n");
            assert(nl@ =~= seq!['\n']);
        }
        match next_line(&cs, &nl, 0) {
            Some((t, _)) => string_of(&cs, 0, t),
            None => {
                proof {
                    assert(text_lines(cs@, 0) =~= Seq::<Seq<char>>::empty());
                }
                String::new()
            },
        }
    }
}

/// A click selection: the clicked ids join the selection, which is first
/// cleared unless `additive`.
pub fn apply_selection(selected: &mut TextSet, clicked: Vec<String>, additive: bool)
    ensures
        forall|k: Seq<char>| #[trigger] final(selected).set().contains(k) <==>
            ((additive && old(selected).set().contains(k)) || clicked@.map_values(|s: String| s@).contains(k)),
{
    if !additive {
        *selected = TextSet::new();
    }
    let ghost base = selected.set();
    let ghost cv = clicked@.map_values(|s: String| s@);
    let mut k: usize = 0;
    while k < clicked.len()
        invariant
            k <= clicked@.len(),
            cv == clicked@.map_values(|s: String| s@),
            forall|x: Seq<char>| #[trigger] selected.set().contains(x) <==> (base.contains(x) || cv.take(k as int).contains(x)),
        decreases clicked@.len() - k,
    {
        let ghost before = selected.set();
        let c = clicked[k].clone();
        let ghost cs = c@;
        selected.insert(c);
        proof {
            assert(cv.take(k + 1) =~= cv.take(k as int).push(cs));
            assert(cv.take(k + 1)[k as int] == cs);
            assert forall|x: Seq<char>| #[trigger] selected.set().contains(x) <==> (base.contains(x) || cv.take(k + 1).contains(x)) by {
                if cv.take(k + 1).contains(x) && x != cs {
                    let i = choose|i: int| 0 <= i < cv.take(k + 1).len() && #[trigger] cv.take(k + 1)[i] == x;
                    assert(cv.take(k as int)[i] == x);
                }
                if cv.take(k as int).contains(x) {
                    let i = choose|i: int| 0 <= i < cv.take(k as int).len() && #[trigger] cv.take(k as int)[i] == x;
                    assert(cv.take(k + 1)[i] == x);
                }
            }
        }
        k = k + 1;
    }
    proof {
        assert(cv.take(k as int) =~= cv);
    }
}

} // verus!
