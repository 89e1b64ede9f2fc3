//! The per-layer payload file format: one JSON object per non-empty
//! layer, in a fixed canonical shape. The writer emits the anchors,
//! components and contours arrays, then the optional advances; optional
//! fields are omitted at their defaults. The reader accepts exactly the
//! canonical shape and rejects anything else as malformed.

use vstd::prelude::*;

use crate::chars::{char_code, char_from_u32, chars_of_str, string_of_chars};
use crate::codepoints::{hexd, hex_val, is_hex_char};
use crate::structs::{
    identity_transform, is_number_char, is_number_text, AnchorModel, ComponentModel, ContourModel, LayerModel,
    PointModel, PointType, TransformModel,
};

verus! {

/// The escaped form of one character inside a JSON string: quote and
/// backslash escaped, control characters written as `\u00XX`, anything
/// else verbatim.
pub open spec fn esc_json_char(c: char) -> Seq<char> {
    if c == '"' {
        seq!['\\', '"']
    } else if c == '\\' {
        seq!['\\', '\\']
    } else if 0 <= (c as int) && (c as int) < 0x20 {
        seq!['\\', 'u', '0', '0', hexd(c as int / 16), hexd(c as int % 16)]
    } else {
        seq![c]
    }
}

/// The escaped body of a JSON string.
pub open spec fn esc_json(s: Seq<char>) -> Seq<char>
    decreases s.len(),
{
    if s.len() == 0 {
        Seq::empty()
    } else {
        esc_json_char(s[0]) + esc_json(s.drop_first())
    }
}

/// A whole JSON string, quotes included.
pub open spec fn jstring(s: Seq<char>) -> Seq<char> {
    seq!['"'] + esc_json(s) + seq!['"']
}

/// The text of one point type, as it stands in a payload file.
pub open spec fn point_type_text(t: PointType) -> Seq<char> {
    match t {
        PointType::OffCurve => "OffCurve"@,
        PointType::Move => "Move"@,
        PointType::Line => "Line"@,
        PointType::Curve => "Curve"@,
        PointType::QCurve => "QCurve"@,
    }
}

/// The written form of one anchor.
pub open spec fn anchor_json(a: AnchorModel) -> Seq<char> {
    "{\"name\":"@ + jstring(a.name) + ",\"x\":"@ + a.x + ",\"y\":"@ + a.y + "}"@
}

/// The written form of a transform: all six entries, in order.
pub open spec fn transform_json(t: TransformModel) -> Seq<char> {
    "{\"x_scale\":"@ + t.x_scale + ",\"xy_scale\":"@ + t.xy_scale + ",\"yx_scale\":"@ + t.yx_scale
        + ",\"y_scale\":"@ + t.y_scale + ",\"x_offset\":"@ + t.x_offset + ",\"y_offset\":"@
        + t.y_offset + "}"@
}

/// The written form of one component; the transform is omitted when it
/// is the identity.
pub open spec fn component_json(c: ComponentModel) -> Seq<char> {
    if c.transformation == identity_transform() {
        "{\"name\":"@ + jstring(c.name) + "}"@
    } else {
        "{\"name\":"@ + jstring(c.name) + ",\"transformation\":"@ + transform_json(
            c.transformation,
        ) + "}"@
    }
}

/// The written form of one contour point; the type is omitted when
/// off-curve, the smooth flag when false.
pub open spec fn point_json(p: PointModel) -> Seq<char> {
    "{\"x\":"@ + p.x + ",\"y\":"@ + p.y + (if p.typ != PointType::OffCurve {
        ",\"typ\":\""@ + point_type_text(p.typ) + "\""@
    } else {
        Seq::<char>::empty()
    }) + (if p.smooth {
        ",\"smooth\":true"@
    } else {
        Seq::<char>::empty()
    }) + "}"@
}

/// A comma-joined list of written elements.
pub open spec fn joined(elems: Seq<Seq<char>>) -> Seq<char>
    decreases elems.len(),
{
    if elems.len() == 0 {
        Seq::empty()
    } else if elems.len() == 1 {
        elems[0]
    } else {
        elems[0] + seq![','] + joined(elems.drop_first())
    }
}

/// The written form of one contour.
pub open spec fn contour_json(k: ContourModel) -> Seq<char> {
    "{\"points\":["@ + joined(k.points.map_values(|p: PointModel| point_json(p))) + "]}"@
}

/// The written form of a whole layer.
pub open spec fn layer_json(l: LayerModel) -> Seq<char> {
    "{\"anchors\":["@ + joined(l.anchors.map_values(|a: AnchorModel| anchor_json(a)))
        + "],\"components\":["@ + joined(
        l.components.map_values(|c: ComponentModel| component_json(c)),
    ) + "],\"contours\":["@ + joined(l.contours.map_values(|k: ContourModel| contour_json(k)))
        + "]"@ + (match l.vertical_origin {
        Some(t) => ",\"vertical_origin\":"@ + t,
        None => Seq::<char>::empty(),
    }) + (match l.x_advance {
        Some(t) => ",\"x_advance\":"@ + t,
        None => Seq::<char>::empty(),
    }) + (match l.y_advance {
        Some(t) => ",\"y_advance\":"@ + t,
        None => Seq::<char>::empty(),
    }) + "}"@
}

/// Consume an exact literal prefix.
pub open spec fn expect(s: Seq<char>, lit: Seq<char>) -> Option<Seq<char>> {
    if s.len() >= lit.len() && s.take(lit.len() as int) == lit {
        Some(s.skip(lit.len() as int))
    } else {
        None
    }
}

/// Read a JSON string body up to its closing quote, unescaping.
pub open spec fn jstr_from(s: Seq<char>, acc: Seq<char>) -> Option<(Seq<char>, Seq<char>)>
    decreases s.len(),
{
    if s.len() == 0 {
        None
    } else if s[0] == '"' {
        Some((acc, s.drop_first()))
    } else if s[0] == '\\' {
        if s.len() >= 2 && s[1] == '"' {
            jstr_from(s.skip(2), acc.push('"'))
        } else if s.len() >= 2 && s[1] == '\\' {
            jstr_from(s.skip(2), acc.push('\\'))
        } else if s.len() >= 6 && s[1] == 'u' && s[2] == '0' && s[3] == '0' && is_hex_char(s[4])
            && is_hex_char(s[5]) && hex_val(s[4]) * 16 + hex_val(s[5]) < 0x20 {
            jstr_from(s.skip(6), acc.push((hex_val(s[4]) * 16 + hex_val(s[5])) as char))
        } else {
            None
        }
    } else if 0 <= (s[0] as int) && (s[0] as int) < 0x20 {
        None
    } else {
        jstr_from(s.drop_first(), acc.push(s[0]))
    }
}

/// Read a whole JSON string, quotes included.
pub open spec fn parse_jstring(s: Seq<char>) -> Option<(Seq<char>, Seq<char>)> {
    if s.len() > 0 && s[0] == '"' {
        jstr_from(s.drop_first(), Seq::empty())
    } else {
        None
    }
}

/// Read a number token: the longest nonempty run of number characters.
pub open spec fn jnum_from(s: Seq<char>, acc: Seq<char>) -> Option<(Seq<char>, Seq<char>)>
    decreases s.len(),
{
    if s.len() > 0 && is_number_char(s[0]) {
        jnum_from(s.drop_first(), acc.push(s[0]))
    } else if acc.len() > 0 {
        Some((acc, s))
    } else {
        None
    }
}

pub open spec fn parse_jnum(s: Seq<char>) -> Option<(Seq<char>, Seq<char>)> {
    jnum_from(s, Seq::empty())
}

/// Read one anchor object.
pub open spec fn parse_anchor(s: Seq<char>) -> Option<(AnchorModel, Seq<char>)> {
    match expect(s, "{\"name\":"@) {
        None => None,
        Some(s1) => match parse_jstring(s1) {
            None => None,
            Some((name, s2)) => match expect(s2, ",\"x\":"@) {
                None => None,
                Some(s3) => match parse_jnum(s3) {
                    None => None,
                    Some((x, s4)) => match expect(s4, ",\"y\":"@) {
                        None => None,
                        Some(s5) => match parse_jnum(s5) {
                            None => None,
                            Some((y, s6)) => match expect(s6, "}"@) {
                                None => None,
                                Some(s7) => Some((AnchorModel { name, x, y }, s7)),
                            },
                        },
                    },
                },
            },
        },
    }
}

/// Read one transform object: all six entries.
pub open spec fn parse_transform(s: Seq<char>) -> Option<(TransformModel, Seq<char>)> {
    match expect(s, "{\"x_scale\":"@) {
        None => None,
        Some(s1) => match parse_jnum(s1) {
            None => None,
            Some((xs, s2)) => match expect(s2, ",\"xy_scale\":"@) {
                None => None,
                Some(s3) => match parse_jnum(s3) {
                    None => None,
                    Some((xys, s4)) => match expect(s4, ",\"yx_scale\":"@) {
                        None => None,
                        Some(s5) => match parse_jnum(s5) {
                            None => None,
                            Some((yxs, s6)) => match expect(s6, ",\"y_scale\":"@) {
                                None => None,
                                Some(s7) => match parse_jnum(s7) {
                                    None => None,
                                    Some((ys, s8)) => match expect(s8, ",\"x_offset\":"@) {
                                        None => None,
                                        Some(s9) => match parse_jnum(s9) {
                                            None => None,
                                            Some((xo, s10)) => match expect(
                                                s10,
                                                ",\"y_offset\":"@,
                                            ) {
                                                None => None,
                                                Some(s11) => match parse_jnum(s11) {
                                                    None => None,
                                                    Some((yo, s12)) => match expect(s12, "}"@) {
                                                        None => None,
                                                        Some(s13) => Some(
                                                            (
                                                                TransformModel {
                                                                    x_scale: xs,
                                                                    xy_scale: xys,
                                                                    yx_scale: yxs,
                                                                    y_scale: ys,
                                                                    x_offset: xo,
                                                                    y_offset: yo,
                                                                },
                                                                s13,
                                                            ),
                                                        ),
                                                    },
                                                },
                                            },
                                        },
                                    },
                                },
                            },
                        },
                    },
                },
            },
        },
    }
}

/// Read one component object; a missing transform is the identity. The
/// written transform may not be the identity (the writer would have
/// omitted it), so the representation stays canonical.
pub open spec fn parse_component(s: Seq<char>) -> Option<(ComponentModel, Seq<char>)> {
    match expect(s, "{\"name\":"@) {
        None => None,
        Some(s1) => match parse_jstring(s1) {
            None => None,
            Some((name, s2)) => match expect(s2, "}"@) {
                Some(s3) => Some(
                    (ComponentModel { name, transformation: identity_transform() }, s3),
                ),
                None => match expect(s2, ",\"transformation\":"@) {
                    None => None,
                    Some(s3) => match parse_transform(s3) {
                        None => None,
                        Some((t, s4)) => if t == identity_transform() {
                            None
                        } else {
                            match expect(s4, "}"@) {
                                None => None,
                                Some(s5) => Some((ComponentModel { name, transformation: t }, s5)),
                            }
                        },
                    },
                },
            },
        },
    }
}

/// Read the optional point type of one contour point.
pub open spec fn parse_point_typ(s: Seq<char>) -> Option<(PointType, Seq<char>)> {
    match expect(s, ",\"typ\":\"Move\""@) {
        Some(s1) => Some((PointType::Move, s1)),
        None => match expect(s, ",\"typ\":\"Line\""@) {
            Some(s1) => Some((PointType::Line, s1)),
            None => match expect(s, ",\"typ\":\"Curve\""@) {
                Some(s1) => Some((PointType::Curve, s1)),
                None => match expect(s, ",\"typ\":\"QCurve\""@) {
                    Some(s1) => Some((PointType::QCurve, s1)),
                    None => Some((PointType::OffCurve, s)),
                },
            },
        },
    }
}

/// Read one contour point object.
pub open spec fn parse_point(s: Seq<char>) -> Option<(PointModel, Seq<char>)> {
    match expect(s, "{\"x\":"@) {
        None => None,
        Some(s1) => match parse_jnum(s1) {
            None => None,
            Some((x, s2)) => match expect(s2, ",\"y\":"@) {
                None => None,
                Some(s3) => match parse_jnum(s3) {
                    None => None,
                    Some((y, s4)) => match parse_point_typ(s4) {
                        None => None,
                        Some((typ, s5)) => {
                            let (smooth, s6opt) = match expect(s5, ",\"smooth\":true"@) {
                                Some(s6) => (true, Some(s6)),
                                None => (false, Some(s5)),
                            };
                            match s6opt {
                                None => None,
                                Some(s6) => match expect(s6, "}"@) {
                                    None => None,
                                    Some(s7) => Some((PointModel { x, y, typ, smooth }, s7)),
                                },
                            }
                        },
                    },
                },
            },
        },
    }
}

proof fn lemma_jstr_shrinks(s: Seq<char>, acc: Seq<char>)
    ensures
        jstr_from(s, acc) matches Some((x, r)) ==> r.len() < s.len(),
    decreases s.len(),
{
    if s.len() == 0 {
    } else if s[0] == '"' {
    } else if s[0] == '\\' {
        if s.len() >= 2 && s[1] == '"' {
            lemma_jstr_shrinks(s.skip(2), acc.push('"'));
        } else if s.len() >= 2 && s[1] == '\\' {
            lemma_jstr_shrinks(s.skip(2), acc.push('\\'));
        } else if s.len() >= 6 && s[1] == 'u' && s[2] == '0' && s[3] == '0' && is_hex_char(s[4])
            && is_hex_char(s[5]) && hex_val(s[4]) * 16 + hex_val(s[5]) < 0x20 {
            lemma_jstr_shrinks(s.skip(6), acc.push((hex_val(s[4]) * 16 + hex_val(s[5])) as char));
        }
    } else if 0 <= (s[0] as int) && (s[0] as int) < 0x20 {
    } else {
        lemma_jstr_shrinks(s.drop_first(), acc.push(s[0]));
    }
}

proof fn lemma_jnum_shrinks(s: Seq<char>, acc: Seq<char>)
    ensures
        jnum_from(s, acc) matches Some((x, r)) ==> r.len() <= s.len(),
    decreases s.len(),
{
    if s.len() > 0 && is_number_char(s[0]) {
        lemma_jnum_shrinks(s.drop_first(), acc.push(s[0]));
    }
}

/// Reading one anchor consumes text.
pub proof fn lemma_parse_anchor_shrinks(s: Seq<char>)
    ensures
        parse_anchor(s) matches Some((a, r)) ==> r.len() < s.len(),
{
    if parse_anchor(s) is Some {
        let s1 = expect(s, "{\"name\":"@).unwrap();
        lemma_jstr_shrinks(s1.drop_first(), Seq::empty());
        let (name, s2) = parse_jstring(s1).unwrap();
        let s3 = expect(s2, ",\"x\":"@).unwrap();
        lemma_jnum_shrinks(s3, Seq::empty());
        let (x, s4) = parse_jnum(s3).unwrap();
        let s5 = expect(s4, ",\"y\":"@).unwrap();
        lemma_jnum_shrinks(s5, Seq::empty());
        let (y, s6) = parse_jnum(s5).unwrap();
        reveal_strlit("{\"name\":");
        reveal_strlit(",\"x\":");
        reveal_strlit(",\"y\":");
        reveal_strlit("}");
    }
}

/// Reading one transform consumes text.
pub proof fn lemma_parse_transform_shrinks(s: Seq<char>)
    ensures
        parse_transform(s) matches Some((t, r)) ==> r.len() < s.len(),
{
    if parse_transform(s) is Some {
        let s1 = expect(s, "{\"x_scale\":"@).unwrap();
        lemma_jnum_shrinks(s1, Seq::empty());
        let (xs, s2) = parse_jnum(s1).unwrap();
        let s3 = expect(s2, ",\"xy_scale\":"@).unwrap();
        lemma_jnum_shrinks(s3, Seq::empty());
        let (xys, s4) = parse_jnum(s3).unwrap();
        let s5 = expect(s4, ",\"yx_scale\":"@).unwrap();
        lemma_jnum_shrinks(s5, Seq::empty());
        let (yxs, s6) = parse_jnum(s5).unwrap();
        let s7 = expect(s6, ",\"y_scale\":"@).unwrap();
        lemma_jnum_shrinks(s7, Seq::empty());
        let (ys, s8) = parse_jnum(s7).unwrap();
        let s9 = expect(s8, ",\"x_offset\":"@).unwrap();
        lemma_jnum_shrinks(s9, Seq::empty());
        let (xo, s10) = parse_jnum(s9).unwrap();
        let s11 = expect(s10, ",\"y_offset\":"@).unwrap();
        lemma_jnum_shrinks(s11, Seq::empty());
        let (yo, s12) = parse_jnum(s11).unwrap();
        reveal_strlit("{\"x_scale\":");
        reveal_strlit("}");
    }
}

/// Reading one component consumes text.
pub proof fn lemma_parse_component_shrinks(s: Seq<char>)
    ensures
        parse_component(s) matches Some((c, r)) ==> r.len() < s.len(),
{
    if parse_component(s) is Some {
        let s1 = expect(s, "{\"name\":"@).unwrap();
        lemma_jstr_shrinks(s1.drop_first(), Seq::empty());
        let (name, s2) = parse_jstring(s1).unwrap();
        reveal_strlit("{\"name\":");
        reveal_strlit("}");
        if expect(s2, "}"@) is None {
            let s3 = expect(s2, ",\"transformation\":"@).unwrap();
            lemma_parse_transform_shrinks(s3);
            reveal_strlit(",\"transformation\":");
        }
    }
}

/// Reading one contour point consumes text.
pub proof fn lemma_parse_point_shrinks(s: Seq<char>)
    ensures
        parse_point(s) matches Some((p, r)) ==> r.len() < s.len(),
{
    if parse_point(s) is Some {
        let s1 = expect(s, "{\"x\":"@).unwrap();
        lemma_jnum_shrinks(s1, Seq::empty());
        let (x, s2) = parse_jnum(s1).unwrap();
        let s3 = expect(s2, ",\"y\":"@).unwrap();
        lemma_jnum_shrinks(s3, Seq::empty());
        let (y, s4) = parse_jnum(s3).unwrap();
        reveal_strlit("{\"x\":");
        reveal_strlit(",\"y\":");
        reveal_strlit("}");
    }
}

/// Read the elements of a nonempty anchor list, commas between them,
/// through the closing bracket.
pub open spec fn parse_anchor_items(s: Seq<char>) -> Option<(Seq<AnchorModel>, Seq<char>)>
    decreases s.len(),
    when s.len() >= 0
    via parse_anchor_items_decreases
{
    match parse_anchor(s) {
        None => None,
        Some((a, r)) => match expect(r, ","@) {
            Some(r2) => match parse_anchor_items(r2) {
                None => None,
                Some((rest, r3)) => Some((seq![a] + rest, r3)),
            },
            None => match expect(r, "]"@) {
                None => None,
                Some(r3) => Some((seq![a], r3)),
            },
        },
    }
}

#[via_fn]
proof fn parse_anchor_items_decreases(s: Seq<char>) {
    lemma_parse_anchor_shrinks(s);
}

/// Read an anchor list after its opening bracket.
pub open spec fn parse_anchor_list(s: Seq<char>) -> Option<(Seq<AnchorModel>, Seq<char>)> {
    match expect(s, "]"@) {
        Some(r) => Some((Seq::empty(), r)),
        None => parse_anchor_items(s),
    }
}

/// Read the elements of a nonempty component list.
pub open spec fn parse_component_items(s: Seq<char>) -> Option<(Seq<ComponentModel>, Seq<char>)>
    decreases s.len(),
    when s.len() >= 0
    via parse_component_items_decreases
{
    match parse_component(s) {
        None => None,
        Some((a, r)) => match expect(r, ","@) {
            Some(r2) => match parse_component_items(r2) {
                None => None,
                Some((rest, r3)) => Some((seq![a] + rest, r3)),
            },
            None => match expect(r, "]"@) {
                None => None,
                Some(r3) => Some((seq![a], r3)),
            },
        },
    }
}

#[via_fn]
proof fn parse_component_items_decreases(s: Seq<char>) {
    lemma_parse_component_shrinks(s);
}

/// Read a component list after its opening bracket.
pub open spec fn parse_component_list(s: Seq<char>) -> Option<(Seq<ComponentModel>, Seq<char>)> {
    match expect(s, "]"@) {
        Some(r) => Some((Seq::empty(), r)),
        None => parse_component_items(s),
    }
}

/// Read the elements of a nonempty point list.
pub open spec fn parse_point_items(s: Seq<char>) -> Option<(Seq<PointModel>, Seq<char>)>
    decreases s.len(),
    when s.len() >= 0
    via parse_point_items_decreases
{
    match parse_point(s) {
        None => None,
        Some((a, r)) => match expect(r, ","@) {
            Some(r2) => match parse_point_items(r2) {
                None => None,
                Some((rest, r3)) => Some((seq![a] + rest, r3)),
            },
            None => match expect(r, "]"@) {
                None => None,
                Some(r3) => Some((seq![a], r3)),
            },
        },
    }
}

#[via_fn]
proof fn parse_point_items_decreases(s: Seq<char>) {
    lemma_parse_point_shrinks(s);
}

/// Read a point list after its opening bracket.
pub open spec fn parse_point_list(s: Seq<char>) -> Option<(Seq<PointModel>, Seq<char>)> {
    match expect(s, "]"@) {
        Some(r) => Some((Seq::empty(), r)),
        None => parse_point_items(s),
    }
}

/// Read one contour object.
pub open spec fn parse_contour(s: Seq<char>) -> Option<(ContourModel, Seq<char>)> {
    match expect(s, "{\"points\":["@) {
        None => None,
        Some(s1) => match parse_point_list(s1) {
            None => None,
            Some((points, s2)) => match expect(s2, "}"@) {
                None => None,
                Some(s3) => Some((ContourModel { points }, s3)),
            },
        },
    }
}

/// Reading one contour consumes text.
pub proof fn lemma_parse_contour_shrinks(s: Seq<char>)
    ensures
        parse_contour(s) matches Some((k, r)) ==> r.len() < s.len(),
{
    if parse_contour(s) is Some {
        let s1 = expect(s, "{\"points\":["@).unwrap();
        lemma_parse_point_list_shrinks(s1);
        reveal_strlit("{\"points\":[");
        reveal_strlit("}");
    }
}

proof fn lemma_parse_point_list_shrinks(s: Seq<char>)
    ensures
        parse_point_list(s) matches Some((ps, r)) ==> r.len() <= s.len(),
{
    if expect(s, "]"@) is None && parse_point_items(s) is Some {
        lemma_parse_point_items_shrinks(s);
    }
}

proof fn lemma_parse_point_items_shrinks(s: Seq<char>)
    ensures
        parse_point_items(s) matches Some((ps, r)) ==> r.len() < s.len(),
    decreases s.len(),
{
    if parse_point_items(s) is Some {
        let (a, r) = parse_point(s).unwrap();
        lemma_parse_point_shrinks(s);
        match expect(r, ","@) {
            Some(r2) => {
                lemma_parse_point_items_shrinks(r2);
            },
            None => {},
        }
    }
}

/// Read the elements of a nonempty contour list.
pub open spec fn parse_contour_items(s: Seq<char>) -> Option<(Seq<ContourModel>, Seq<char>)>
    decreases s.len(),
    when s.len() >= 0
    via parse_contour_items_decreases
{
    match parse_contour(s) {
        None => None,
        Some((a, r)) => match expect(r, ","@) {
            Some(r2) => match parse_contour_items(r2) {
                None => None,
                Some((rest, r3)) => Some((seq![a] + rest, r3)),
            },
            None => match expect(r, "]"@) {
                None => None,
                Some(r3) => Some((seq![a], r3)),
            },
        },
    }
}

#[via_fn]
proof fn parse_contour_items_decreases(s: Seq<char>) {
    lemma_parse_contour_shrinks(s);
}

/// Read a contour list after its opening bracket.
pub open spec fn parse_contour_list(s: Seq<char>) -> Option<(Seq<ContourModel>, Seq<char>)> {
    match expect(s, "]"@) {
        Some(r) => Some((Seq::empty(), r)),
        None => parse_contour_items(s),
    }
}

/// Read one optional trailing field introduced by the given literal.
pub open spec fn parse_opt_num(s: Seq<char>, lit: Seq<char>) -> Option<(
    Option<Seq<char>>,
    Seq<char>,
)> {
    match expect(s, lit) {
        None => Some((None, s)),
        Some(s1) => match parse_jnum(s1) {
            None => None,
            Some((t, s2)) => Some((Some(t), s2)),
        },
    }
}

/// What a whole layer payload text holds, if it is canonical: the
/// object must fill the text exactly, and a vertical advance must come
/// together with a vertical origin.
pub open spec fn parse_layer_text(s: Seq<char>) -> Option<LayerModel> {
    match expect(s, "{\"anchors\":["@) {
        None => None,
        Some(s1) => match parse_anchor_list(s1) {
            None => None,
            Some((anchors, s2)) => match expect(s2, ",\"components\":["@) {
                None => None,
                Some(s3) => match parse_component_list(s3) {
                    None => None,
                    Some((components, s4)) => match expect(s4, ",\"contours\":["@) {
                        None => None,
                        Some(s5) => match parse_contour_list(s5) {
                            None => None,
                            Some((contours, s6)) => match parse_opt_num(
                                s6,
                                ",\"vertical_origin\":"@,
                            ) {
                                None => None,
                                Some((vo, s7)) => match parse_opt_num(s7, ",\"x_advance\":"@) {
                                    None => None,
                                    Some((xa, s8)) => match parse_opt_num(s8, ",\"y_advance\":"@) {
                                        None => None,
                                        Some((ya, s9)) => if s9 == "}"@ && (ya is Some <==> vo
                                            is Some) {
                                            Some(
                                                LayerModel {
                                                    anchors,
                                                    components,
                                                    contours,
                                                    vertical_origin: vo,
                                                    x_advance: xa,
                                                    y_advance: ya,
                                                },
                                            )
                                        } else {
                                            None
                                        },
                                    },
                                },
                            },
                        },
                    },
                },
            },
        },
    }
}

/// Append a string's characters.
fn push_chars(out: &mut Vec<char>, t: &str)
    ensures
        final(out)@ == old(out)@ + t@,
{
    let v = chars_of_str(t);
    let n = v.len();
    let mut i: usize = 0;
    while i < n
        invariant
            n == v@.len(),
            v@ == t@,
            i <= n,
            out@ == old(out)@ + t@.take(i as int),
        decreases n - i,
    {
        out.push(v[i]);
        proof {
            assert(old(out)@ + t@.take(i + 1) =~= (old(out)@ + t@.take(i as int)).push(
                t@[i as int],
            ));
        }
        i = i + 1;
    }
    proof {
        assert(t@.take(n as int) =~= t@);
    }
}

/// Splitting the last character off a string splits its escaped body.
proof fn lemma_esc_json_snoc(s: Seq<char>)
    requires
        s.len() > 0,
    ensures
        esc_json(s) == esc_json(s.drop_last()) + esc_json_char(s.last()),
    decreases s.len(),
{
    if s.len() == 1 {
        assert(s.drop_first() =~= Seq::<char>::empty());
        assert(s.drop_last() =~= Seq::<char>::empty());
        assert(esc_json(s) =~= esc_json(s.drop_last()) + esc_json_char(s.last()));
    } else {
        lemma_esc_json_snoc(s.drop_first());
        assert(s.drop_first().drop_last() =~= s.drop_last().drop_first());
        assert(s.drop_first().last() == s.last());
        assert(s.drop_last()[0] == s[0]);
        assert(esc_json(s) =~= esc_json(s.drop_last()) + esc_json_char(s.last()));
    }
}

/// Append a whole JSON string, quotes and escapes included.
fn push_jstring(out: &mut Vec<char>, t: &str)
    ensures
        final(out)@ == old(out)@ + jstring(t@),
{
    let v = chars_of_str(t);
    let n = v.len();
    out.push('"');
    let mut i: usize = 0;
    while i < n
        invariant
            n == v@.len(),
            v@ == t@,
            i <= n,
            out@ == old(out)@ + seq!['"'] + esc_json(t@.take(i as int)),
        decreases n - i,
    {
        let c = v[i];
        proof {
            lemma_esc_json_snoc(t@.take(i + 1));
            assert(t@.take(i + 1).drop_last() =~= t@.take(i as int));
            assert(t@.take(i + 1).last() == t@[i as int]);
        }
        if c == '"' {
            out.push('\\');
            out.push('"');
        } else if c == '\\' {
            out.push('\\');
            out.push('\\');
        } else if char_code(c) < 0x20 {
            proof {
                assert(0 <= (c as int) && (c as int) < 0x20);
            }
            out.push('\\');
            out.push('u');
            out.push('0');
            out.push('0');
            let cv = char_code(c);
            out.push(crate::codepoints::hex_digit_char(cv / 16));
            out.push(crate::codepoints::hex_digit_char(cv % 16));
            proof {
                assert((cv / 16) as int == (c as int) / 16);
                assert((cv % 16) as int == (c as int) % 16);
            }
        } else {
            proof {
                assert(!(0 <= (c as int) && (c as int) < 0x20));
            }
            out.push(c);
        }
        proof {
            assert(out@ =~= old(out)@ + seq!['"'] + esc_json(t@.take(i + 1)));
        }
        i = i + 1;
    }
    out.push('"');
    proof {
        assert(t@.take(n as int) =~= t@);
        assert(out@ =~= old(out)@ + jstring(t@));
    }
}

/// Append one anchor in written form.
fn push_anchor(out: &mut Vec<char>, a: &crate::structs::Anchor)
    ensures
        final(out)@ == old(out)@ + anchor_json(a@),
{
    push_chars(out, "{\"name\":");
    push_jstring(out, a.name.as_str());
    push_chars(out, ",\"x\":");
    push_chars(out, a.x.as_str());
    push_chars(out, ",\"y\":");
    push_chars(out, a.y.as_str());
    push_chars(out, "}");
    proof {
        assert(out@ =~= old(out)@ + anchor_json(a@));
    }
}

/// Append one transform in written form.
fn push_transform(out: &mut Vec<char>, t: &crate::structs::AffineTransformation)
    ensures
        final(out)@ == old(out)@ + transform_json(t@),
{
    push_chars(out, "{\"x_scale\":");
    push_chars(out, t.x_scale.as_str());
    push_chars(out, ",\"xy_scale\":");
    push_chars(out, t.xy_scale.as_str());
    push_chars(out, ",\"yx_scale\":");
    push_chars(out, t.yx_scale.as_str());
    push_chars(out, ",\"y_scale\":");
    push_chars(out, t.y_scale.as_str());
    push_chars(out, ",\"x_offset\":");
    push_chars(out, t.x_offset.as_str());
    push_chars(out, ",\"y_offset\":");
    push_chars(out, t.y_offset.as_str());
    push_chars(out, "}");
    proof {
        assert(out@ =~= old(out)@ + transform_json(t@));
    }
}

/// Whether a transform is the identity.
fn transform_is_identity(t: &crate::structs::AffineTransformation) -> (r: bool)
    ensures
        r == (t@ == identity_transform()),
{
    let one = "1";
    let zero = "0";
    proof {
        reveal_strlit("1");
        reveal_strlit("0");
        assert("1"@ =~= seq!['1']);
        assert("0"@ =~= seq!['0']);
    }
    let r = crate::order::str_eq(t.x_scale.as_str(), one) && crate::order::str_eq(
        t.xy_scale.as_str(),
        zero,
    ) && crate::order::str_eq(t.yx_scale.as_str(), zero) && crate::order::str_eq(
        t.y_scale.as_str(),
        one,
    ) && crate::order::str_eq(t.x_offset.as_str(), zero) && crate::order::str_eq(
        t.y_offset.as_str(),
        zero,
    );
    proof {
        if r {
            assert(t@ =~= identity_transform());
        }
    }
    r
}

/// Append one component in written form.
fn push_component(out: &mut Vec<char>, c: &crate::structs::Component)
    ensures
        final(out)@ == old(out)@ + component_json(c@),
{
    push_chars(out, "{\"name\":");
    push_jstring(out, c.name.as_str());
    if !transform_is_identity(&c.transformation) {
        push_chars(out, ",\"transformation\":");
        push_transform(out, &c.transformation);
    }
    push_chars(out, "}");
    proof {
        assert(out@ =~= old(out)@ + component_json(c@));
    }
}

/// Append one contour point in written form.
fn push_point(out: &mut Vec<char>, p: &crate::structs::ContourPoint)
    ensures
        final(out)@ == old(out)@ + point_json(p@),
{
    push_chars(out, "{\"x\":");
    push_chars(out, p.x.as_str());
    push_chars(out, ",\"y\":");
    push_chars(out, p.y.as_str());
    match p.typ {
        PointType::OffCurve => {},
        PointType::Move => {
            push_chars(out, ",\"typ\":\"Move\"");
            proof {
                reveal_strlit(",\"typ\":\"Move\"");
                reveal_strlit(",\"typ\":\"");
                reveal_strlit("Move");
                reveal_strlit("\"");
                assert(",\"typ\":\"Move\""@ =~= ",\"typ\":\""@ + "Move"@ + "\""@);
            }
        },
        PointType::Line => {
            push_chars(out, ",\"typ\":\"Line\"");
            proof {
                reveal_strlit(",\"typ\":\"Line\"");
                reveal_strlit(",\"typ\":\"");
                reveal_strlit("Line");
                reveal_strlit("\"");
                assert(",\"typ\":\"Line\""@ =~= ",\"typ\":\""@ + "Line"@ + "\""@);
            }
        },
        PointType::Curve => {
            push_chars(out, ",\"typ\":\"Curve\"");
            proof {
                reveal_strlit(",\"typ\":\"Curve\"");
                reveal_strlit(",\"typ\":\"");
                reveal_strlit("Curve");
                reveal_strlit("\"");
                assert(",\"typ\":\"Curve\""@ =~= ",\"typ\":\""@ + "Curve"@ + "\""@);
            }
        },
        PointType::QCurve => {
            push_chars(out, ",\"typ\":\"QCurve\"");
            proof {
                reveal_strlit(",\"typ\":\"QCurve\"");
                reveal_strlit(",\"typ\":\"");
                reveal_strlit("QCurve");
                reveal_strlit("\"");
                assert(",\"typ\":\"QCurve\""@ =~= ",\"typ\":\""@ + "QCurve"@ + "\""@);
            }
        },
    }
    if p.smooth {
        push_chars(out, ",\"smooth\":true");
    }
    push_chars(out, "}");
    proof {
        assert(out@ =~= old(out)@ + point_json(p@));
    }
}

/// Splitting the last element off a list splits its joined text.
proof fn lemma_joined_snoc(elems: Seq<Seq<char>>)
    requires
        elems.len() >= 2,
    ensures
        joined(elems) == joined(elems.drop_last()) + seq![','] + elems.last(),
    decreases elems.len(),
{
    reveal_with_fuel(joined, 4);
    if elems.len() == 2 {
        assert(elems.drop_first() =~= seq![elems[1]]);
        assert(elems.drop_last() =~= seq![elems[0]]);
        assert(joined(elems) =~= joined(elems.drop_last()) + seq![','] + elems.last());
    } else {
        lemma_joined_snoc(elems.drop_first());
        assert(elems.drop_first().drop_last() =~= elems.drop_last().drop_first());
        assert(elems.drop_first().last() == elems.last());
        assert(elems.drop_last()[0] == elems[0]);
        assert(joined(elems) =~= joined(elems.drop_last()) + seq![','] + elems.last());
    }
}

/// Append one contour in written form.
fn push_contour(out: &mut Vec<char>, k: &crate::structs::Contour)
    ensures
        final(out)@ == old(out)@ + contour_json(k@),
{
    push_chars(out, "{\"points\":[");
    let n = k.points.len();
    let mut i: usize = 0;
    proof {
        assert(k@.points.take(0) =~= Seq::<PointModel>::empty());
        assert(joined(k@.points.take(0).map_values(|p: PointModel| point_json(p))) =~= Seq::<
            char,
        >::empty());
        assert(out@ + Seq::<char>::empty() =~= out@);
    }
    while i < n
        invariant
            n == k.points@.len(),
            i <= n,
            out@ == old(out)@ + "{\"points\":["@ + joined(
                k@.points.take(i as int).map_values(|p: PointModel| point_json(p)),
            ),
        decreases n - i,
    {
        if i > 0 {
            out.push(',');
        }
        push_point(out, &k.points[i]);
        proof {
            let em = k@.points.take(i + 1).map_values(|p: PointModel| point_json(p));
            assert(em.drop_last() =~= k@.points.take(i as int).map_values(
                |p: PointModel| point_json(p),
            ));
            assert(em.last() == point_json(k@.points[i as int]));
            if i == 0 {
                assert(em =~= seq![point_json(k@.points[0])]);
                assert(out@ =~= old(out)@ + "{\"points\":["@ + joined(em));
            } else {
                lemma_joined_snoc(em);
                assert(out@ =~= old(out)@ + "{\"points\":["@ + joined(em));
            }
        }
        i = i + 1;
    }
    push_chars(out, "]}");
    proof {
        assert(k@.points.take(n as int) =~= k@.points);
        assert(k@.points.take(n as int).map_values(|p: PointModel| point_json(p)) =~= k@.points.map_values(|p: PointModel| point_json(p)));
        assert(out@ =~= old(out)@ + contour_json(k@));
    }
}

/// Write a whole layer as its payload text.
pub fn layer_to_text(l: &crate::structs::Layer) -> (r: String)
    ensures
        r@ == layer_json(l@),
{
    let mut out: Vec<char> = Vec::new();
    push_chars(&mut out, "{\"anchors\":[");
    let ghost base = "{\"anchors\":["@;
    let an = l.anchors.len();
    let mut i: usize = 0;
    proof {
        assert(out@ =~= base);
        assert(l@.anchors.take(0) =~= Seq::<AnchorModel>::empty());
        assert(joined(Seq::<Seq<char>>::empty()) =~= Seq::<char>::empty());
        assert(out@ + Seq::<char>::empty() =~= out@);
        assert(l@.anchors.take(0).map_values(|a: AnchorModel| anchor_json(a)) =~= Seq::<
            Seq<char>,
        >::empty());
    }
    while i < an
        invariant
            an == l.anchors@.len(),
            i <= an,
            out@ == base + joined(l@.anchors.take(i as int).map_values(|a: AnchorModel| anchor_json(a))),
        decreases an - i,
    {
        if i > 0 {
            out.push(',');
        }
        push_anchor(&mut out, &l.anchors[i]);
        proof {
            let em = l@.anchors.take(i + 1).map_values(|a: AnchorModel| anchor_json(a));
            assert(em.drop_last() =~= l@.anchors.take(i as int).map_values(
                |a: AnchorModel| anchor_json(a),
            ));
            assert(em.last() == anchor_json(l@.anchors[i as int]));
            if i == 0 {
                assert(em =~= seq![anchor_json(l@.anchors[0])]);
                assert(out@ =~= base + joined(em));
            } else {
                lemma_joined_snoc(em);
                assert(out@ =~= base + joined(em));
            }
        }
        i = i + 1;
    }
    proof {
        assert(l@.anchors.take(an as int) =~= l@.anchors);
        assert(l@.anchors.take(an as int).map_values(|a: AnchorModel| anchor_json(a)) =~= l@.anchors.map_values(|a: AnchorModel| anchor_json(a)));
    }
    push_chars(&mut out, "],\"components\":[");
    let ghost base2 = out@;
    let cn = l.components.len();
    let mut j: usize = 0;
    proof {
        assert(l@.components.take(0).map_values(|c: ComponentModel| component_json(c)) =~= Seq::<
            Seq<char>,
        >::empty());
        assert(joined(Seq::<Seq<char>>::empty()) =~= Seq::<char>::empty());
        assert(out@ + Seq::<char>::empty() =~= out@);
    }
    while j < cn
        invariant
            cn == l.components@.len(),
            j <= cn,
            out@ == base2 + joined(
                l@.components.take(j as int).map_values(|c: ComponentModel| component_json(c)),
            ),
        decreases cn - j,
    {
        if j > 0 {
            out.push(',');
        }
        push_component(&mut out, &l.components[j]);
        proof {
            let em = l@.components.take(j + 1).map_values(|c: ComponentModel| component_json(c));
            assert(em.drop_last() =~= l@.components.take(j as int).map_values(
                |c: ComponentModel| component_json(c),
            ));
            assert(em.last() == component_json(l@.components[j as int]));
            if j == 0 {
                assert(em =~= seq![component_json(l@.components[0])]);
                assert(out@ =~= base2 + joined(em));
            } else {
                lemma_joined_snoc(em);
                assert(out@ =~= base2 + joined(em));
            }
        }
        j = j + 1;
    }
    proof {
        assert(l@.components.take(cn as int) =~= l@.components);
        assert(l@.components.take(cn as int).map_values(|c: ComponentModel| component_json(c)) =~= l@.components.map_values(|c: ComponentModel| component_json(c)));
    }
    push_chars(&mut out, "],\"contours\":[");
    let ghost base3 = out@;
    let kn = l.contours.len();
    let mut k: usize = 0;
    proof {
        assert(l@.contours.take(0).map_values(|c: ContourModel| contour_json(c)) =~= Seq::<
            Seq<char>,
        >::empty());
        assert(joined(Seq::<Seq<char>>::empty()) =~= Seq::<char>::empty());
        assert(out@ + Seq::<char>::empty() =~= out@);
    }
    while k < kn
        invariant
            kn == l.contours@.len(),
            k <= kn,
            out@ == base3 + joined(
                l@.contours.take(k as int).map_values(|c: ContourModel| contour_json(c)),
            ),
        decreases kn - k,
    {
        if k > 0 {
            out.push(',');
        }
        push_contour(&mut out, &l.contours[k]);
        proof {
            let em = l@.contours.take(k + 1).map_values(|c: ContourModel| contour_json(c));
            assert(em.drop_last() =~= l@.contours.take(k as int).map_values(
                |c: ContourModel| contour_json(c),
            ));
            assert(em.last() == contour_json(l@.contours[k as int]));
            if k == 0 {
                assert(em =~= seq![contour_json(l@.contours[0])]);
                assert(out@ =~= base3 + joined(em));
            } else {
                lemma_joined_snoc(em);
                assert(out@ =~= base3 + joined(em));
            }
        }
        k = k + 1;
    }
    proof {
        assert(l@.contours.take(kn as int) =~= l@.contours);
        assert(l@.contours.take(kn as int).map_values(|c: ContourModel| contour_json(c)) =~= l@.contours.map_values(|c: ContourModel| contour_json(c)));
    }
    push_chars(&mut out, "]");
    match &l.vertical_origin {
        Some(t) => {
            push_chars(&mut out, ",\"vertical_origin\":");
            push_chars(&mut out, t.as_str());
        },
        None => {},
    }
    match &l.x_advance {
        Some(t) => {
            push_chars(&mut out, ",\"x_advance\":");
            push_chars(&mut out, t.as_str());
        },
        None => {},
    }
    match &l.y_advance {
        Some(t) => {
            push_chars(&mut out, ",\"y_advance\":");
            push_chars(&mut out, t.as_str());
        },
        None => {},
    }
    push_chars(&mut out, "}");
    proof {
        assert(out@ =~= layer_json(l@));
    }
    string_of_chars(&out)
}

/// Consume an exact literal at position `i`, if present.
fn expect_lit(v: &Vec<char>, i: usize, lit: &str) -> (r: Option<usize>)
    requires
        i <= v@.len(),
    ensures
        match r {
            Some(j) => i <= j <= v@.len() && expect(v@.skip(i as int), lit@) == Some(
                v@.skip(j as int),
            ),
            None => expect(v@.skip(i as int), lit@) is None,
        },
{
    let lv = chars_of_str(lit);
    let m = lv.len();
    let n = v.len();
    if n - i < m {
        proof {
            assert(v@.skip(i as int).len() < lit@.len());
        }
        return None;
    }
    let mut k: usize = 0;
    while k < m
        invariant
            m == lit@.len(),
            lv@ == lit@,
            n == v@.len(),
            i <= n,
            n - i >= m,
            k <= m,
            forall|j: int| 0 <= j < k ==> v@[i + j] == lit@[j],
        decreases m - k,
    {
        if v[i + k] != lv[k] {
            proof {
                let s = v@.skip(i as int);
                if s.len() >= lit@.len() && s.take(lit@.len() as int) == lit@ {
                    assert(s.take(lit@.len() as int)[k as int] == lit@[k as int]);
                    assert(s[k as int] == v@[i + k]);
                }
            }
            return None;
        }
        k = k + 1;
    }
    proof {
        let s = v@.skip(i as int);
        assert(s.take(lit@.len() as int) =~= lit@);
        assert(s.skip(lit@.len() as int) =~= v@.skip(i + m));
    }
    Some(i + m)
}

/// Read a JSON string at position `i`.
fn take_jstring(v: &Vec<char>, i: usize) -> (r: Option<(String, usize)>)
    requires
        i <= v@.len(),
    ensures
        match r {
            Some((t, j)) => i <= j <= v@.len() && parse_jstring(v@.skip(i as int)) == Some(
                (t@, v@.skip(j as int)),
            ),
            None => parse_jstring(v@.skip(i as int)) is None,
        },
{
    let n = v.len();
    if i >= n || v[i] != '"' {
        proof {
            if i < n {
                assert(v@.skip(i as int)[0] == v@[i as int]);
            } else {
                assert(v@.skip(i as int).len() == 0);
            }
        }
        return None;
    }
    let mut acc: Vec<char> = Vec::new();
    let mut k: usize = i + 1;
    proof {
        assert(v@.skip(i as int)[0] == v@[i as int]);
        assert(v@.skip(i as int).drop_first() =~= v@.skip(i + 1));
        assert(acc@ =~= Seq::<char>::empty());
    }
    loop
        invariant
            n == v@.len(),
            i < k <= n,
            parse_jstring(v@.skip(i as int)) == jstr_from(v@.skip(k as int), acc@),
        decreases n - k,
    {
        if k >= n {
            proof {
                assert(v@.skip(k as int).len() == 0);
            }
            return None;
        }
        let c = v[k];
        proof {
            assert(v@.skip(k as int)[0] == v@[k as int]);
            assert(v@.skip(k as int).drop_first() =~= v@.skip(k + 1));
        }
        if c == '"' {
            return Some((string_of_chars(&acc), k + 1));
        } else if c == '\\' {
            if k + 1 >= n {
                proof {
                    assert(v@.skip(k as int).len() == 1);
                }
                return None;
            }
            proof {
                assert(v@.skip(k as int)[1] == v@[k + 1]);
                assert(v@.skip(k as int).len() >= 2);
                assert(v@.skip(k as int).skip(2) =~= v@.skip(k + 2));
            }
            let c2 = v[k + 1];
            if c2 == '"' {
                acc.push('"');
                k = k + 2;
            } else if c2 == '\\' {
                acc.push('\\');
                k = k + 2;
            } else if c2 == 'u' {
                if n - k < 6 {
                    proof {
                        assert(v@.skip(k as int).len() < 6);
                    }
                    return None;
                }
                proof {
                    assert(v@.skip(k as int).len() >= 6);
                    assert(v@.skip(k as int)[2] == v@[k + 2]);
                    assert(v@.skip(k as int)[3] == v@[k + 3]);
                    assert(v@.skip(k as int)[4] == v@[k + 4]);
                    assert(v@.skip(k as int)[5] == v@[k + 5]);
                    assert(v@.skip(k as int).skip(6) =~= v@.skip(k + 6));
                }
                if v[k + 2] != '0' || v[k + 3] != '0' {
                    return None;
                }
                let d1 = match crate::codepoints::hex_digit_value(v[k + 4]) {
                    Some(d) => d,
                    None => {
                        return None;
                    },
                };
                let d0 = match crate::codepoints::hex_digit_value(v[k + 5]) {
                    Some(d) => d,
                    None => {
                        return None;
                    },
                };
                let val = d1 * 16 + d0;
                if val >= 0x20 {
                    return None;
                }
                match char_from_u32(val) {
                    Some(ch) => {
                        acc.push(ch);
                        k = k + 6;
                    },
                    None => {
                        return None;
                    },
                }
            } else {
                return None;
            }
        } else if char_code(c) < 0x20 {
            proof {
                assert(0 <= (c as int) && (c as int) < 0x20);
            }
            return None;
        } else {
            proof {
                assert(!(0 <= (c as int) && (c as int) < 0x20));
            }
            acc.push(c);
            k = k + 1;
        }
    }
}

/// Read a number token at position `i`.
fn take_jnum(v: &Vec<char>, i: usize) -> (r: Option<(String, usize)>)
    requires
        i <= v@.len(),
    ensures
        match r {
            Some((t, j)) => i <= j <= v@.len() && parse_jnum(v@.skip(i as int)) == Some(
                (t@, v@.skip(j as int)),
            ) && is_number_text(t@),
            None => parse_jnum(v@.skip(i as int)) is None,
        },
{
    let n = v.len();
    let mut acc: Vec<char> = Vec::new();
    let mut k: usize = i;
    proof {
        assert(acc@ =~= Seq::<char>::empty());
    }
    loop
        invariant
            n == v@.len(),
            i <= k <= n,
            parse_jnum(v@.skip(i as int)) == jnum_from(v@.skip(k as int), acc@),
            forall|j: int| 0 <= j < acc@.len() ==> is_number_char(#[trigger] acc@[j]),
        decreases n - k,
    {
        if k >= n {
            proof {
                assert(v@.skip(k as int).len() == 0);
            }
            if acc.len() > 0 {
                proof {
                    assert(v@.skip(k as int) =~= v@.skip(k as int));
                }
                return Some((string_of_chars(&acc), k));
            } else {
                return None;
            }
        }
        let c = v[k];
        proof {
            assert(v@.skip(k as int)[0] == v@[k as int]);
            assert(v@.skip(k as int).drop_first() =~= v@.skip(k + 1));
        }
        let isnum = ('0' <= c && c <= '9') || c == '-' || c == '+' || c == '.' || c == 'e' || c
            == 'E';
        if isnum {
            acc.push(c);
            k = k + 1;
        } else {
            if acc.len() > 0 {
                return Some((string_of_chars(&acc), k));
            } else {
                return None;
            }
        }
    }
}

/// Read one anchor at position `i`.
fn take_anchor(v: &Vec<char>, i: usize) -> (r: Option<(crate::structs::Anchor, usize)>)
    requires
        i <= v@.len(),
    ensures
        match r {
            Some((a, j)) => i <= j <= v@.len() && parse_anchor(v@.skip(i as int)) == Some(
                (a@, v@.skip(j as int)),
            ),
            None => parse_anchor(v@.skip(i as int)) is None,
        },
{
    let s1 = match expect_lit(v, i, "{\"name\":") {
        Some(j) => j,
        None => {
            return None;
        },
    };
    let (name, s2) = match take_jstring(v, s1) {
        Some(x) => x,
        None => {
            return None;
        },
    };
    let s3 = match expect_lit(v, s2, ",\"x\":") {
        Some(j) => j,
        None => {
            return None;
        },
    };
    let (x, s4) = match take_jnum(v, s3) {
        Some(x) => x,
        None => {
            return None;
        },
    };
    let s5 = match expect_lit(v, s4, ",\"y\":") {
        Some(j) => j,
        None => {
            return None;
        },
    };
    let (y, s6) = match take_jnum(v, s5) {
        Some(x) => x,
        None => {
            return None;
        },
    };
    let s7 = match expect_lit(v, s6, "}") {
        Some(j) => j,
        None => {
            return None;
        },
    };
    let a = crate::structs::Anchor { name, x, y };
    Some((a, s7))
}

/// Read one transform at position `i`.
fn take_transform(v: &Vec<char>, i: usize) -> (r: Option<(
    crate::structs::AffineTransformation,
    usize,
)>)
    requires
        i <= v@.len(),
    ensures
        match r {
            Some((t, j)) => i <= j <= v@.len() && parse_transform(v@.skip(i as int)) == Some(
                (t@, v@.skip(j as int)),
            ),
            None => parse_transform(v@.skip(i as int)) is None,
        },
{
    let s1 = match expect_lit(v, i, "{\"x_scale\":") {
        Some(j) => j,
        None => {
            return None;
        },
    };
    let (xs, s2) = match take_jnum(v, s1) {
        Some(x) => x,
        None => {
            return None;
        },
    };
    let s3 = match expect_lit(v, s2, ",\"xy_scale\":") {
        Some(j) => j,
        None => {
            return None;
        },
    };
    let (xys, s4) = match take_jnum(v, s3) {
        Some(x) => x,
        None => {
            return None;
        },
    };
    let s5 = match expect_lit(v, s4, ",\"yx_scale\":") {
        Some(j) => j,
        None => {
            return None;
        },
    };
    let (yxs, s6) = match take_jnum(v, s5) {
        Some(x) => x,
        None => {
            return None;
        },
    };
    let s7 = match expect_lit(v, s6, ",\"y_scale\":") {
        Some(j) => j,
        None => {
            return None;
        },
    };
    let (ys, s8) = match take_jnum(v, s7) {
        Some(x) => x,
        None => {
            return None;
        },
    };
    let s9 = match expect_lit(v, s8, ",\"x_offset\":") {
        Some(j) => j,
        None => {
            return None;
        },
    };
    let (xo, s10) = match take_jnum(v, s9) {
        Some(x) => x,
        None => {
            return None;
        },
    };
    let s11 = match expect_lit(v, s10, ",\"y_offset\":") {
        Some(j) => j,
        None => {
            return None;
        },
    };
    let (yo, s12) = match take_jnum(v, s11) {
        Some(x) => x,
        None => {
            return None;
        },
    };
    let s13 = match expect_lit(v, s12, "}") {
        Some(j) => j,
        None => {
            return None;
        },
    };
    let t = crate::structs::AffineTransformation {
        x_scale: xs,
        xy_scale: xys,
        yx_scale: yxs,
        y_scale: ys,
        x_offset: xo,
        y_offset: yo,
    };
    Some((t, s13))
}

/// Read one component at position `i`.
fn take_component(v: &Vec<char>, i: usize) -> (r: Option<(crate::structs::Component, usize)>)
    requires
        i <= v@.len(),
    ensures
        match r {
            Some((c, j)) => i <= j <= v@.len() && parse_component(v@.skip(i as int)) == Some(
                (c@, v@.skip(j as int)),
            ),
            None => parse_component(v@.skip(i as int)) is None,
        },
{
    let s1 = match expect_lit(v, i, "{\"name\":") {
        Some(j) => j,
        None => {
            return None;
        },
    };
    let (name, s2) = match take_jstring(v, s1) {
        Some(x) => x,
        None => {
            return None;
        },
    };
    match expect_lit(v, s2, "}") {
        Some(s3) => {
            let c = crate::structs::Component {
                name,
                transformation: crate::structs::AffineTransformation::identity(),
            };
            return Some((c, s3));
        },
        None => {},
    }
    let s3 = match expect_lit(v, s2, ",\"transformation\":") {
        Some(j) => j,
        None => {
            return None;
        },
    };
    let (t, s4) = match take_transform(v, s3) {
        Some(x) => x,
        None => {
            return None;
        },
    };
    if transform_is_identity(&t) {
        return None;
    }
    let s5 = match expect_lit(v, s4, "}") {
        Some(j) => j,
        None => {
            return None;
        },
    };
    let c = crate::structs::Component { name, transformation: t };
    Some((c, s5))
}

/// Read the optional point type at position `i`.
fn take_point_typ(v: &Vec<char>, i: usize) -> (r: (PointType, usize))
    requires
        i <= v@.len(),
    ensures
        i <= r.1 <= v@.len() && parse_point_typ(v@.skip(i as int)) == Some(
            (r.0, v@.skip(r.1 as int)),
        ),
{
    match expect_lit(v, i, ",\"typ\":\"Move\"") {
        Some(j) => (PointType::Move, j),
        None => match expect_lit(v, i, ",\"typ\":\"Line\"") {
            Some(j) => (PointType::Line, j),
            None => match expect_lit(v, i, ",\"typ\":\"Curve\"") {
                Some(j) => (PointType::Curve, j),
                None => match expect_lit(v, i, ",\"typ\":\"QCurve\"") {
                    Some(j) => (PointType::QCurve, j),
                    None => (PointType::OffCurve, i),
                },
            },
        },
    }
}

/// Read one contour point at position `i`.
fn take_point(v: &Vec<char>, i: usize) -> (r: Option<(crate::structs::ContourPoint, usize)>)
    requires
        i <= v@.len(),
    ensures
        match r {
            Some((p, j)) => i <= j <= v@.len() && parse_point(v@.skip(i as int)) == Some(
                (p@, v@.skip(j as int)),
            ),
            None => parse_point(v@.skip(i as int)) is None,
        },
{
    let s1 = match expect_lit(v, i, "{\"x\":") {
        Some(j) => j,
        None => {
            return None;
        },
    };
    let (x, s2) = match take_jnum(v, s1) {
        Some(p) => p,
        None => {
            return None;
        },
    };
    let s3 = match expect_lit(v, s2, ",\"y\":") {
        Some(j) => j,
        None => {
            return None;
        },
    };
    let (y, s4) = match take_jnum(v, s3) {
        Some(p) => p,
        None => {
            return None;
        },
    };
    let (typ, s5) = take_point_typ(v, s4);
    let (smooth, s6) = match expect_lit(v, s5, ",\"smooth\":true") {
        Some(j) => (true, j),
        None => (false, s5),
    };
    let s7 = match expect_lit(v, s6, "}") {
        Some(j) => j,
        None => {
            return None;
        },
    };
    let p = crate::structs::ContourPoint { x, y, typ, smooth };
    Some((p, s7))
}

/// Read an anchor list at position `i` (after its opening bracket).
fn take_anchor_list(v: &Vec<char>, i: usize) -> (r: Option<(Vec<crate::structs::Anchor>, usize)>)
    requires
        i <= v@.len(),
    ensures
        match r {
            Some((av, j)) => i <= j <= v@.len() && parse_anchor_list(v@.skip(i as int)) == Some(
                (av@.map_values(|a: crate::structs::Anchor| a@), v@.skip(j as int)),
            ),
            None => parse_anchor_list(v@.skip(i as int)) is None,
        },
{
    let n = v.len();
    match expect_lit(v, i, "]") {
        Some(j) => {
            let av: Vec<crate::structs::Anchor> = Vec::new();
            proof {
                assert(av@.map_values(|a: crate::structs::Anchor| a@) =~= Seq::<
                    AnchorModel,
                >::empty());
            }
            return Some((av, j));
        },
        None => {},
    }
    let mut av: Vec<crate::structs::Anchor> = Vec::new();
    let mut k: usize = i;
    proof {
        assert(av@.map_values(|a: crate::structs::Anchor| a@) =~= Seq::<AnchorModel>::empty());
    }
    loop
        invariant
            n == v@.len(),
            i <= k <= n,
            expect(v@.skip(i as int), "]"@) is None,
            ({
                let acc = av@.map_values(|a: crate::structs::Anchor| a@);
                match parse_anchor_items(v@.skip(k as int)) {
                    Some((rest, r)) => parse_anchor_list(v@.skip(i as int)) == Some(
                        (acc + rest, r),
                    ),
                    None => parse_anchor_items(v@.skip(i as int)) is None,
                }
            }),
        decreases n - k,
    {
        let ghost acc0 = av@.map_values(|a: crate::structs::Anchor| a@);
        match take_anchor(v, k) {
            None => {
                return None;
            },
            Some((a, r)) => {
                proof {
                    lemma_parse_anchor_shrinks(v@.skip(k as int));
                }
                av.push(a);
                proof {
                    assert(av@.map_values(|x: crate::structs::Anchor| x@) =~= acc0.push(a@));
                }
                match expect_lit(v, r, ",") {
                    Some(r2) => {
                        proof {
                            let acc = av@.map_values(|x: crate::structs::Anchor| x@);
                            match parse_anchor_items(v@.skip(r2 as int)) {
                                Some((rest2, rr)) => {
                                    assert(parse_anchor_items(v@.skip(k as int)) == Some(
                                        (seq![a@] + rest2, rr),
                                    ));
                                    assert(acc0 + (seq![a@] + rest2) =~= acc + rest2);
                                },
                                None => {
                                    assert(parse_anchor_items(v@.skip(k as int)) is None);
                                },
                            }
                        }
                        k = r2;
                    },
                    None => {
                        match expect_lit(v, r, "]") {
                            Some(r3) => {
                                proof {
                                    let acc = av@.map_values(|x: crate::structs::Anchor| x@);
                                    assert(parse_anchor_items(v@.skip(k as int)) == Some(
                                        (seq![a@], v@.skip(r3 as int)),
                                    ));
                                    assert(acc0 + seq![a@] =~= acc);
                                }
                                return Some((av, r3));
                            },
                            None => {
                                return None;
                            },
                        }
                    },
                }
            },
        }
    }
}

/// Read a component list at position `i` (after its opening bracket).
fn take_component_list(v: &Vec<char>, i: usize) -> (r: Option<(
    Vec<crate::structs::Component>,
    usize,
)>)
    requires
        i <= v@.len(),
    ensures
        match r {
            Some((av, j)) => i <= j <= v@.len() && parse_component_list(v@.skip(i as int)) == Some(
                (av@.map_values(|a: crate::structs::Component| a@), v@.skip(j as int)),
            ),
            None => parse_component_list(v@.skip(i as int)) is None,
        },
{
    let n = v.len();
    match expect_lit(v, i, "]") {
        Some(j) => {
            let av: Vec<crate::structs::Component> = Vec::new();
            proof {
                assert(av@.map_values(|a: crate::structs::Component| a@) =~= Seq::<
                    ComponentModel,
                >::empty());
            }
            return Some((av, j));
        },
        None => {},
    }
    let mut av: Vec<crate::structs::Component> = Vec::new();
    let mut k: usize = i;
    proof {
        assert(av@.map_values(|a: crate::structs::Component| a@) =~= Seq::<
            ComponentModel,
        >::empty());
    }
    loop
        invariant
            n == v@.len(),
            i <= k <= n,
            expect(v@.skip(i as int), "]"@) is None,
            ({
                let acc = av@.map_values(|a: crate::structs::Component| a@);
                match parse_component_items(v@.skip(k as int)) {
                    Some((rest, r)) => parse_component_list(v@.skip(i as int)) == Some(
                        (acc + rest, r),
                    ),
                    None => parse_component_items(v@.skip(i as int)) is None,
                }
            }),
        decreases n - k,
    {
        let ghost acc0 = av@.map_values(|a: crate::structs::Component| a@);
        match take_component(v, k) {
            None => {
                return None;
            },
            Some((a, r)) => {
                proof {
                    lemma_parse_component_shrinks(v@.skip(k as int));
                }
                av.push(a);
                proof {
                    assert(av@.map_values(|x: crate::structs::Component| x@) =~= acc0.push(a@));
                }
                match expect_lit(v, r, ",") {
                    Some(r2) => {
                        proof {
                            let acc = av@.map_values(|x: crate::structs::Component| x@);
                            match parse_component_items(v@.skip(r2 as int)) {
                                Some((rest2, rr)) => {
                                    assert(parse_component_items(v@.skip(k as int)) == Some(
                                        (seq![a@] + rest2, rr),
                                    ));
                                    assert(acc0 + (seq![a@] + rest2) =~= acc + rest2);
                                },
                                None => {
                                    assert(parse_component_items(v@.skip(k as int)) is None);
                                },
                            }
                        }
                        k = r2;
                    },
                    None => {
                        match expect_lit(v, r, "]") {
                            Some(r3) => {
                                proof {
                                    let acc = av@.map_values(|x: crate::structs::Component| x@);
                                    assert(parse_component_items(v@.skip(k as int)) == Some(
                                        (seq![a@], v@.skip(r3 as int)),
                                    ));
                                    assert(acc0 + seq![a@] =~= acc);
                                }
                                return Some((av, r3));
                            },
                            None => {
                                return None;
                            },
                        }
                    },
                }
            },
        }
    }
}

/// Read a point list at position `i` (after its opening bracket).
fn take_point_list(v: &Vec<char>, i: usize) -> (r: Option<(
    Vec<crate::structs::ContourPoint>,
    usize,
)>)
    requires
        i <= v@.len(),
    ensures
        match r {
            Some((av, j)) => i <= j <= v@.len() && parse_point_list(v@.skip(i as int)) == Some(
                (av@.map_values(|a: crate::structs::ContourPoint| a@), v@.skip(j as int)),
            ),
            None => parse_point_list(v@.skip(i as int)) is None,
        },
{
    let n = v.len();
    match expect_lit(v, i, "]") {
        Some(j) => {
            let av: Vec<crate::structs::ContourPoint> = Vec::new();
            proof {
                assert(av@.map_values(|a: crate::structs::ContourPoint| a@) =~= Seq::<
                    PointModel,
                >::empty());
            }
            return Some((av, j));
        },
        None => {},
    }
    let mut av: Vec<crate::structs::ContourPoint> = Vec::new();
    let mut k: usize = i;
    proof {
        assert(av@.map_values(|a: crate::structs::ContourPoint| a@) =~= Seq::<
            PointModel,
        >::empty());
    }
    loop
        invariant
            n == v@.len(),
            i <= k <= n,
            expect(v@.skip(i as int), "]"@) is None,
            ({
                let acc = av@.map_values(|a: crate::structs::ContourPoint| a@);
                match parse_point_items(v@.skip(k as int)) {
                    Some((rest, r)) => parse_point_list(v@.skip(i as int)) == Some(
                        (acc + rest, r),
                    ),
                    None => parse_point_items(v@.skip(i as int)) is None,
                }
            }),
        decreases n - k,
    {
        let ghost acc0 = av@.map_values(|a: crate::structs::ContourPoint| a@);
        match take_point(v, k) {
            None => {
                return None;
            },
            Some((a, r)) => {
                proof {
                    lemma_parse_point_shrinks(v@.skip(k as int));
                }
                av.push(a);
                proof {
                    assert(av@.map_values(|x: crate::structs::ContourPoint| x@) =~= acc0.push(a@));
                }
                match expect_lit(v, r, ",") {
                    Some(r2) => {
                        proof {
                            let acc = av@.map_values(|x: crate::structs::ContourPoint| x@);
                            match parse_point_items(v@.skip(r2 as int)) {
                                Some((rest2, rr)) => {
                                    assert(parse_point_items(v@.skip(k as int)) == Some(
                                        (seq![a@] + rest2, rr),
                                    ));
                                    assert(acc0 + (seq![a@] + rest2) =~= acc + rest2);
                                },
                                None => {
                                    assert(parse_point_items(v@.skip(k as int)) is None);
                                },
                            }
                        }
                        k = r2;
                    },
                    None => {
                        match expect_lit(v, r, "]") {
                            Some(r3) => {
                                proof {
                                    let acc = av@.map_values(|x: crate::structs::ContourPoint| x@);
                                    assert(parse_point_items(v@.skip(k as int)) == Some(
                                        (seq![a@], v@.skip(r3 as int)),
                                    ));
                                    assert(acc0 + seq![a@] =~= acc);
                                }
                                return Some((av, r3));
                            },
                            None => {
                                return None;
                            },
                        }
                    },
                }
            },
        }
    }
}

/// Read one contour at position `i`.
fn take_contour(v: &Vec<char>, i: usize) -> (r: Option<(crate::structs::Contour, usize)>)
    requires
        i <= v@.len(),
    ensures
        match r {
            Some((c, j)) => i <= j <= v@.len() && parse_contour(v@.skip(i as int)) == Some(
                (c@, v@.skip(j as int)),
            ),
            None => parse_contour(v@.skip(i as int)) is None,
        },
{
    let s1 = match expect_lit(v, i, "{\"points\":[") {
        Some(j) => j,
        None => {
            return None;
        },
    };
    let (points, s2) = match take_point_list(v, s1) {
        Some(x) => x,
        None => {
            return None;
        },
    };
    let s3 = match expect_lit(v, s2, "}") {
        Some(j) => j,
        None => {
            return None;
        },
    };
    let c = crate::structs::Contour { points };
    Some((c, s3))
}

/// Read a contour list at position `i` (after its opening bracket).
fn take_contour_list(v: &Vec<char>, i: usize) -> (r: Option<(Vec<crate::structs::Contour>, usize)>)
    requires
        i <= v@.len(),
    ensures
        match r {
            Some((av, j)) => i <= j <= v@.len() && parse_contour_list(v@.skip(i as int)) == Some(
                (av@.map_values(|a: crate::structs::Contour| a@), v@.skip(j as int)),
            ),
            None => parse_contour_list(v@.skip(i as int)) is None,
        },
{
    let n = v.len();
    match expect_lit(v, i, "]") {
        Some(j) => {
            let av: Vec<crate::structs::Contour> = Vec::new();
            proof {
                assert(av@.map_values(|a: crate::structs::Contour| a@) =~= Seq::<
                    ContourModel,
                >::empty());
            }
            return Some((av, j));
        },
        None => {},
    }
    let mut av: Vec<crate::structs::Contour> = Vec::new();
    let mut k: usize = i;
    proof {
        assert(av@.map_values(|a: crate::structs::Contour| a@) =~= Seq::<ContourModel>::empty());
    }
    loop
        invariant
            n == v@.len(),
            i <= k <= n,
            expect(v@.skip(i as int), "]"@) is None,
            ({
                let acc = av@.map_values(|a: crate::structs::Contour| a@);
                match parse_contour_items(v@.skip(k as int)) {
                    Some((rest, r)) => parse_contour_list(v@.skip(i as int)) == Some(
                        (acc + rest, r),
                    ),
                    None => parse_contour_items(v@.skip(i as int)) is None,
                }
            }),
        decreases n - k,
    {
        let ghost acc0 = av@.map_values(|a: crate::structs::Contour| a@);
        match take_contour(v, k) {
            None => {
                return None;
            },
            Some((a, r)) => {
                proof {
                    lemma_parse_contour_shrinks(v@.skip(k as int));
                }
                av.push(a);
                proof {
                    assert(av@.map_values(|x: crate::structs::Contour| x@) =~= acc0.push(a@));
                }
                match expect_lit(v, r, ",") {
                    Some(r2) => {
                        proof {
                            let acc = av@.map_values(|x: crate::structs::Contour| x@);
                            match parse_contour_items(v@.skip(r2 as int)) {
                                Some((rest2, rr)) => {
                                    assert(parse_contour_items(v@.skip(k as int)) == Some(
                                        (seq![a@] + rest2, rr),
                                    ));
                                    assert(acc0 + (seq![a@] + rest2) =~= acc + rest2);
                                },
                                None => {
                                    assert(parse_contour_items(v@.skip(k as int)) is None);
                                },
                            }
                        }
                        k = r2;
                    },
                    None => {
                        match expect_lit(v, r, "]") {
                            Some(r3) => {
                                proof {
                                    let acc = av@.map_values(|x: crate::structs::Contour| x@);
                                    assert(parse_contour_items(v@.skip(k as int)) == Some(
                                        (seq![a@], v@.skip(r3 as int)),
                                    ));
                                    assert(acc0 + seq![a@] =~= acc);
                                }
                                return Some((av, r3));
                            },
                            None => {
                                return None;
                            },
                        }
                    },
                }
            },
        }
    }
}

/// Read a whole layer payload text; `None` for anything that is not a
/// canonical payload.
#[verifier::rlimit(100)]
pub fn text_to_layer(s: &str) -> (r: Option<crate::structs::Layer>)
    ensures
        match r {
            Some(l) => parse_layer_text(s@) == Some(l@),
            None => parse_layer_text(s@) is None,
        },
{
    let v = chars_of_str(s);
    let n = v.len();
    proof {
        assert(v@.skip(0) =~= s@);
    }
    let s1 = match expect_lit(&v, 0, "{\"anchors\":[") {
        Some(j) => j,
        None => {
            return None;
        },
    };
    let (anchors, s2) = match take_anchor_list(&v, s1) {
        Some(x) => x,
        None => {
            return None;
        },
    };
    let s3 = match expect_lit(&v, s2, ",\"components\":[") {
        Some(j) => j,
        None => {
            return None;
        },
    };
    let (components, s4) = match take_component_list(&v, s3) {
        Some(x) => x,
        None => {
            return None;
        },
    };
    let s5 = match expect_lit(&v, s4, ",\"contours\":[") {
        Some(j) => j,
        None => {
            return None;
        },
    };
    let (contours, s6) = match take_contour_list(&v, s5) {
        Some(x) => x,
        None => {
            return None;
        },
    };
    let (vo, s7) = match expect_lit(&v, s6, ",\"vertical_origin\":") {
        Some(j) => match take_jnum(&v, j) {
            Some((t, j2)) => (Some(t), j2),
            None => {
                return None;
            },
        },
        None => (None, s6),
    };
    let (xa, s8) = match expect_lit(&v, s7, ",\"x_advance\":") {
        Some(j) => match take_jnum(&v, j) {
            Some((t, j2)) => (Some(t), j2),
            None => {
                return None;
            },
        },
        None => (None, s7),
    };
    let (ya, s9) = match expect_lit(&v, s8, ",\"y_advance\":") {
        Some(j) => match take_jnum(&v, j) {
            Some((t, j2)) => (Some(t), j2),
            None => {
                return None;
            },
        },
        None => (None, s8),
    };
    proof {
        reveal_strlit("}");
    }
    if n - s9 != 1 {
        proof {
            assert(v@.skip(s9 as int).len() != 1);
            if v@.skip(s9 as int) == "}"@ {
                assert(v@.skip(s9 as int).len() == 1);
            }
        }
        return None;
    }
    if v[s9] != '}' {
        proof {
            if v@.skip(s9 as int) == "}"@ {
                assert(v@.skip(s9 as int)[0] == '}');
                assert(v@.skip(s9 as int)[0] == v@[s9 as int]);
            }
        }
        return None;
    }
    proof {
        assert(v@.skip(s9 as int) =~= "}"@);
    }
    if !(ya.is_some() == vo.is_some()) {
        return None;
    }
    let l = crate::structs::Layer {
        anchors,
        components,
        contours,
        vertical_origin: vo,
        x_advance: xa,
        y_advance: ya,
    };
    proof {
        assert(l@ =~= parse_layer_text(s@).unwrap());
    }
    Some(l)
}

/// A text that begins with a literal parses past exactly that literal.
proof fn lemma_expect_yes(lit: Seq<char>, rest: Seq<char>)
    ensures
        expect(lit + rest, lit) == Some(rest),
{
    let s = lit + rest;
    assert(s.take(lit.len() as int) =~= lit);
    assert(s.skip(lit.len() as int) =~= rest);
}

/// A text that differs from a literal at some position does not carry
/// it.
proof fn lemma_expect_no(s: Seq<char>, lit: Seq<char>, w: int)
    requires
        0 <= w < lit.len(),
        w < s.len() ==> s[w] != lit[w],
    ensures
        expect(s, lit) is None,
{
    if s.len() >= lit.len() && s.take(lit.len() as int) == lit {
        assert(s.take(lit.len() as int)[w] == s[w]);
    }
}

/// Reading the escaped body of a string, a closing quote and a tail
/// gives the string back.
proof fn lemma_jstr_esc(x: Seq<char>, rest: Seq<char>, acc: Seq<char>)
    ensures
        jstr_from(esc_json(x) + seq!['"'] + rest, acc) == Some((acc + x, rest)),
    decreases x.len(),
{
    let s = esc_json(x) + seq!['"'] + rest;
    if x.len() == 0 {
        assert(s =~= seq!['"'] + rest);
        assert(s[0] == '"');
        assert(s.drop_first() =~= rest);
        assert(acc + x =~= acc);
    } else {
        let c = x[0];
        let e = esc_json_char(c);
        assert(esc_json(x) == e + esc_json(x.drop_first()));
        let srest = esc_json(x.drop_first()) + seq!['"'] + rest;
        if c == '"' {
            assert(s =~= seq!['\\', '"'] + srest);
            assert(s[0] == '\\' && s[1] == '"' && s.len() >= 2);
            assert(s.skip(2) =~= srest);
            lemma_jstr_esc(x.drop_first(), rest, acc.push('"'));
            assert(acc.push('"') + x.drop_first() =~= acc + x);
        } else if c == '\\' {
            assert(s =~= seq!['\\', '\\'] + srest);
            assert(s[0] == '\\' && s[1] == '\\' && s.len() >= 2);
            assert(s.skip(2) =~= srest);
            lemma_jstr_esc(x.drop_first(), rest, acc.push('\\'));
            assert(acc.push('\\') + x.drop_first() =~= acc + x);
        } else if 0 <= (c as int) && (c as int) < 0x20 {
            let hi = (c as int) / 16;
            let lo = (c as int) % 16;
            crate::codepoints::lemma_hexd_props(hi);
            crate::codepoints::lemma_hexd_props(lo);
            assert(s =~= seq!['\\', 'u', '0', '0', hexd(hi), hexd(lo)] + srest);
            assert(s[0] == '\\' && s[1] == 'u' && s[2] == '0' && s[3] == '0');
            assert(s[4] == hexd(hi) && s[5] == hexd(lo));
            assert(s.len() >= 6);
            assert(s[1] != '"' && s[1] != '\\') by {
                reveal_strlit("u");
            }
            assert(hex_val(s[4]) * 16 + hex_val(s[5]) == c as int);
            assert(s.skip(6) =~= srest);
            let pushed = (hex_val(s[4]) * 16 + hex_val(s[5])) as char;
            assert(pushed == c);
            lemma_jstr_esc(x.drop_first(), rest, acc.push(c));
            assert(acc.push(c) + x.drop_first() =~= acc + x);
        } else {
            assert(s =~= seq![c] + srest);
            assert(s[0] == c);
            assert(s.drop_first() =~= srest);
            lemma_jstr_esc(x.drop_first(), rest, acc.push(c));
            assert(acc.push(c) + x.drop_first() =~= acc + x);
        }
    }
}

/// Reading a written JSON string gives the string back.
proof fn lemma_jstring_rt(x: Seq<char>, rest: Seq<char>)
    ensures
        parse_jstring(jstring(x) + rest) == Some((x, rest)),
{
    let s = jstring(x) + rest;
    assert(s =~= seq!['"'] + (esc_json(x) + seq!['"'] + rest));
    assert(s[0] == '"');
    assert(s.drop_first() =~= esc_json(x) + seq!['"'] + rest);
    lemma_jstr_esc(x, rest, Seq::empty());
    assert(Seq::<char>::empty() + x =~= x);
}

/// Reading a number text followed by a non-number character gives the
/// text back.
proof fn lemma_jnum_rt(t: Seq<char>, rest: Seq<char>, acc: Seq<char>)
    requires
        forall|i: int| 0 <= i < t.len() ==> is_number_char(#[trigger] t[i]),
        acc.len() + t.len() > 0,
        rest.len() == 0 || !is_number_char(rest[0]),
    ensures
        jnum_from(t + rest, acc) == Some((acc + t, rest)),
    decreases t.len(),
{
    let s = t + rest;
    if t.len() == 0 {
        assert(s =~= rest);
        assert(acc + t =~= acc);
    } else {
        assert(s[0] == t[0]);
        assert(s.drop_first() =~= t.drop_first() + rest);
        lemma_jnum_rt(t.drop_first(), rest, acc.push(t[0]));
        assert(acc.push(t[0]) + t.drop_first() =~= acc + t);
    }
}

/// Reading a written anchor gives the anchor back.
proof fn lemma_anchor_rt(a: AnchorModel, rest: Seq<char>)
    requires
        is_number_text(a.x),
        is_number_text(a.y),
    ensures
        parse_anchor(anchor_json(a) + rest) == Some((a, rest)),
{
    reveal_strlit(",\"x\":");
    reveal_strlit(",\"y\":");
    reveal_strlit("}");
    let t1 = jstring(a.name) + ",\"x\":"@ + a.x + ",\"y\":"@ + a.y + "}"@ + rest;
    assert(anchor_json(a) + rest =~= "{\"name\":"@ + t1);
    lemma_expect_yes("{\"name\":"@, t1);
    let t2 = ",\"x\":"@ + a.x + ",\"y\":"@ + a.y + "}"@ + rest;
    assert(t1 =~= jstring(a.name) + t2);
    lemma_jstring_rt(a.name, t2);
    let t3 = a.x + (",\"y\":"@ + a.y + "}"@ + rest);
    assert(t2 =~= ",\"x\":"@ + t3);
    lemma_expect_yes(",\"x\":"@, t3);
    let t4 = ",\"y\":"@ + a.y + "}"@ + rest;
    assert(t3 =~= a.x + t4);
    assert(t4[0] == ',');
    assert(!is_number_char(','));
    lemma_jnum_rt(a.x, t4, Seq::empty());
    assert(Seq::<char>::empty() + a.x =~= a.x);
    let t5 = a.y + ("}"@ + rest);
    assert(t4.skip(5) =~= t5) by {
        assert(t4 =~= ",\"y\":"@ + t5);
    }
    lemma_expect_yes(",\"y\":"@, t5);
    let t6 = "}"@ + rest;
    assert(t5 =~= a.y + t6);
    assert(t6[0] == '}');
    assert(!is_number_char('}'));
    lemma_jnum_rt(a.y, t6, Seq::empty());
    assert(Seq::<char>::empty() + a.y =~= a.y);
    lemma_expect_yes("}"@, rest);
    assert((AnchorModel { name: a.name, x: a.x, y: a.y }) =~= a);
}

/// Reading a written transform gives the transform back.
proof fn lemma_transform_rt(t: TransformModel, rest: Seq<char>)
    requires
        crate::structs::transform_wf(t),
    ensures
        parse_transform(transform_json(t) + rest) == Some((t, rest)),
{
    reveal_strlit(",\"xy_scale\":");
    reveal_strlit(",\"yx_scale\":");
    reveal_strlit(",\"y_scale\":");
    reveal_strlit(",\"x_offset\":");
    reveal_strlit(",\"y_offset\":");
    reveal_strlit("}");
    let r6 = "}"@ + rest;
    let r5 = t.y_offset + r6;
    let r5l = ",\"y_offset\":"@ + r5;
    let r4 = t.x_offset + r5l;
    let r4l = ",\"x_offset\":"@ + r4;
    let r3 = t.y_scale + r4l;
    let r3l = ",\"y_scale\":"@ + r3;
    let r2 = t.yx_scale + r3l;
    let r2l = ",\"yx_scale\":"@ + r2;
    let r1 = t.xy_scale + r2l;
    let r1l = ",\"xy_scale\":"@ + r1;
    let r0 = t.x_scale + r1l;
    assert(transform_json(t) + rest =~= "{\"x_scale\":"@ + r0);
    lemma_expect_yes("{\"x_scale\":"@, r0);
    assert(r1l[0] == ',' && !is_number_char(','));
    lemma_jnum_rt(t.x_scale, r1l, Seq::empty());
    assert(Seq::<char>::empty() + t.x_scale =~= t.x_scale);
    lemma_expect_yes(",\"xy_scale\":"@, r1);
    assert(r2l[0] == ',');
    lemma_jnum_rt(t.xy_scale, r2l, Seq::empty());
    assert(Seq::<char>::empty() + t.xy_scale =~= t.xy_scale);
    lemma_expect_yes(",\"yx_scale\":"@, r2);
    assert(r3l[0] == ',');
    lemma_jnum_rt(t.yx_scale, r3l, Seq::empty());
    assert(Seq::<char>::empty() + t.yx_scale =~= t.yx_scale);
    lemma_expect_yes(",\"y_scale\":"@, r3);
    assert(r4l[0] == ',');
    lemma_jnum_rt(t.y_scale, r4l, Seq::empty());
    assert(Seq::<char>::empty() + t.y_scale =~= t.y_scale);
    lemma_expect_yes(",\"x_offset\":"@, r4);
    assert(r5l[0] == ',');
    lemma_jnum_rt(t.x_offset, r5l, Seq::empty());
    assert(Seq::<char>::empty() + t.x_offset =~= t.x_offset);
    lemma_expect_yes(",\"y_offset\":"@, r5);
    assert(r6[0] == '}' && !is_number_char('}'));
    lemma_jnum_rt(t.y_offset, r6, Seq::empty());
    assert(Seq::<char>::empty() + t.y_offset =~= t.y_offset);
    lemma_expect_yes("}"@, rest);
    assert((TransformModel {
        x_scale: t.x_scale,
        xy_scale: t.xy_scale,
        yx_scale: t.yx_scale,
        y_scale: t.y_scale,
        x_offset: t.x_offset,
        y_offset: t.y_offset,
    }) =~= t);
}

/// Reading a written component gives the component back.
#[verifier::rlimit(100)]
#[verifier::spinoff_prover]
proof fn lemma_component_rt(c: ComponentModel, rest: Seq<char>)
    requires
        crate::structs::transform_wf(c.transformation),
    ensures
        parse_component(component_json(c) + rest) == Some((c, rest)),
{
    reveal_strlit("}");
    reveal_strlit(",\"transformation\":");
    if c.transformation == identity_transform() {
        let t1 = jstring(c.name) + "}"@ + rest;
        assert(component_json(c) + rest =~= "{\"name\":"@ + t1);
        lemma_expect_yes("{\"name\":"@, t1);
        let t2 = "}"@ + rest;
        assert(t1 =~= jstring(c.name) + t2);
        lemma_jstring_rt(c.name, t2);
        lemma_expect_yes("}"@, rest);
        assert((ComponentModel { name: c.name, transformation: identity_transform() }) =~= c);
    } else {
        let t1 = jstring(c.name) + ",\"transformation\":"@ + transform_json(c.transformation)
            + "}"@ + rest;
        assert(component_json(c) + rest =~= "{\"name\":"@ + t1);
        lemma_expect_yes("{\"name\":"@, t1);
        let t2 = ",\"transformation\":"@ + (transform_json(c.transformation) + "}"@ + rest);
        assert(t1 =~= jstring(c.name) + t2);
        lemma_jstring_rt(c.name, t2);
        assert(t2[0] == ',' && "}"@[0] == '}');
        lemma_expect_no(t2, "}"@, 0);
        let t3 = transform_json(c.transformation) + ("}"@ + rest);
        assert(t2 =~= ",\"transformation\":"@ + t3);
        lemma_expect_yes(",\"transformation\":"@, t3);
        lemma_transform_rt(c.transformation, "}"@ + rest);
        lemma_expect_yes("}"@, rest);
        assert((ComponentModel { name: c.name, transformation: c.transformation }) =~= c);
    }
}

/// Reading a written contour point gives the point back.
proof fn lemma_point_rt(p: PointModel, rest: Seq<char>)
    requires
        is_number_text(p.x),
        is_number_text(p.y),
    ensures
        parse_point(point_json(p) + rest) == Some((p, rest)),
{
    reveal_strlit(",\"y\":");
    reveal_strlit("}");
    reveal_strlit(",\"typ\":\"Move\"");
    reveal_strlit(",\"typ\":\"Line\"");
    reveal_strlit(",\"typ\":\"Curve\"");
    reveal_strlit(",\"typ\":\"QCurve\"");
    reveal_strlit(",\"typ\":\"");
    reveal_strlit("Move");
    reveal_strlit("Line");
    reveal_strlit("Curve");
    reveal_strlit("QCurve");
    reveal_strlit("\"");
    reveal_strlit(",\"smooth\":true");
    let typ_part: Seq<char> = if p.typ != PointType::OffCurve {
        ",\"typ\":\""@ + point_type_text(p.typ) + "\""@
    } else {
        Seq::<char>::empty()
    };
    let smooth_part: Seq<char> = if p.smooth {
        ",\"smooth\":true"@
    } else {
        Seq::<char>::empty()
    };
    let t4 = typ_part + smooth_part + "}"@ + rest;
    let t3 = p.y + t4;
    let t3l = ",\"y\":"@ + t3;
    let t1 = p.x + t3l;
    assert(point_json(p) + rest =~= "{\"x\":"@ + t1);
    lemma_expect_yes("{\"x\":"@, t1);
    assert(t3l[0] == ',' && !is_number_char(','));
    lemma_jnum_rt(p.x, t3l, Seq::empty());
    assert(Seq::<char>::empty() + p.x =~= p.x);
    lemma_expect_yes(",\"y\":"@, t3);
    assert(t4.len() > 0 && (t4[0] == ',' || t4[0] == '}'));
    assert(!is_number_char(t4[0]));
    lemma_jnum_rt(p.y, t4, Seq::empty());
    assert(Seq::<char>::empty() + p.y =~= p.y);
    let t5 = smooth_part + "}"@ + rest;
    match p.typ {
        PointType::OffCurve => {
            assert(t4 =~= t5);
            assert(t4.len() > 0);
            if p.smooth {
                assert(t4[2] == 's' && ",\"typ\":\"Move\""@[2] == 't');
                lemma_expect_no(t4, ",\"typ\":\"Move\""@, 2);
                assert(",\"typ\":\"Line\""@[2] == 't');
                lemma_expect_no(t4, ",\"typ\":\"Line\""@, 2);
                assert(",\"typ\":\"Curve\""@[2] == 't');
                lemma_expect_no(t4, ",\"typ\":\"Curve\""@, 2);
                assert(",\"typ\":\"QCurve\""@[2] == 't');
                lemma_expect_no(t4, ",\"typ\":\"QCurve\""@, 2);
            } else {
                assert(t4[0] == '}');
                lemma_expect_no(t4, ",\"typ\":\"Move\""@, 0);
                lemma_expect_no(t4, ",\"typ\":\"Line\""@, 0);
                lemma_expect_no(t4, ",\"typ\":\"Curve\""@, 0);
                lemma_expect_no(t4, ",\"typ\":\"QCurve\""@, 0);
            }
            assert(parse_point_typ(t4) == Some((PointType::OffCurve, t4)));
        },
        PointType::Move => {
            assert(typ_part =~= ",\"typ\":\"Move\""@);
            assert(t4 =~= ",\"typ\":\"Move\""@ + t5);
            lemma_expect_yes(",\"typ\":\"Move\""@, t5);
        },
        PointType::Line => {
            assert(typ_part =~= ",\"typ\":\"Line\""@);
            assert(t4 =~= ",\"typ\":\"Line\""@ + t5);
            assert(t4[8] == 'L' && ",\"typ\":\"Move\""@[8] == 'M');
            lemma_expect_no(t4, ",\"typ\":\"Move\""@, 8);
            lemma_expect_yes(",\"typ\":\"Line\""@, t5);
        },
        PointType::Curve => {
            assert(typ_part =~= ",\"typ\":\"Curve\""@);
            assert(t4 =~= ",\"typ\":\"Curve\""@ + t5);
            assert(t4[8] == 'C');
            lemma_expect_no(t4, ",\"typ\":\"Move\""@, 8);
            lemma_expect_no(t4, ",\"typ\":\"Line\""@, 8);
            lemma_expect_yes(",\"typ\":\"Curve\""@, t5);
        },
        PointType::QCurve => {
            assert(typ_part =~= ",\"typ\":\"QCurve\""@);
            assert(t4 =~= ",\"typ\":\"QCurve\""@ + t5);
            assert(t4[8] == 'Q');
            lemma_expect_no(t4, ",\"typ\":\"Move\""@, 8);
            lemma_expect_no(t4, ",\"typ\":\"Line\""@, 8);
            lemma_expect_no(t4, ",\"typ\":\"Curve\""@, 8);
            lemma_expect_yes(",\"typ\":\"QCurve\""@, t5);
        },
    }
    let t6 = "}"@ + rest;
    if p.smooth {
        assert(t5 =~= ",\"smooth\":true"@ + t6);
        lemma_expect_yes(",\"smooth\":true"@, t6);
    } else {
        assert(t5 =~= t6);
        assert(t5[0] == '}');
        lemma_expect_no(t5, ",\"smooth\":true"@, 0);
    }
    lemma_expect_yes("}"@, rest);
    assert((PointModel { x: p.x, y: p.y, typ: p.typ, smooth: p.smooth }) =~= p);
}

/// Reading a written nonempty anchor list gives the anchors back.
proof fn lemma_anchor_items_rt(elems: Seq<AnchorModel>, rest: Seq<char>)
    requires
        elems.len() > 0,
        forall|i: int|
            0 <= i < elems.len() ==> is_number_text((#[trigger] elems[i]).x) && is_number_text(
                elems[i].y,
            ),
    ensures
        parse_anchor_items(
            joined(elems.map_values(|a: AnchorModel| anchor_json(a))) + seq![']'] + rest,
        ) == Some((elems, rest)),
    decreases elems.len(),
{
    reveal_strlit(",");
    let m = elems.map_values(|a: AnchorModel| anchor_json(a));
    if elems.len() == 1 {
        let tail = seq![']'] + rest;
        assert(joined(m) + seq![']'] + rest =~= anchor_json(elems[0]) + tail);
        lemma_anchor_rt(elems[0], tail);
        assert(tail[0] == ']' && ","@[0] == ',');
        lemma_expect_no(tail, ","@, 0);
        assert(tail =~= "]"@ + rest) by {
            reveal_strlit("]");
        }
        lemma_expect_yes("]"@, rest);
        assert(seq![elems[0]] =~= elems);
    } else {
        let mrest = elems.drop_first().map_values(|a: AnchorModel| anchor_json(a));
        assert(m.drop_first() =~= mrest);
        assert(joined(m) == m[0] + seq![','] + joined(mrest));
        let inner = joined(mrest) + seq![']'] + rest;
        let tail = seq![','] + inner;
        assert(joined(m) + seq![']'] + rest =~= anchor_json(elems[0]) + tail);
        lemma_anchor_rt(elems[0], tail);
        assert(tail =~= ","@ + inner);
        lemma_expect_yes(","@, inner);
        lemma_anchor_items_rt(elems.drop_first(), rest);
        assert(seq![elems[0]] + elems.drop_first() =~= elems);
    }
}

/// Reading a written anchor list gives the anchors back.
proof fn lemma_anchor_list_rt(elems: Seq<AnchorModel>, rest: Seq<char>)
    requires
        forall|i: int|
            0 <= i < elems.len() ==> is_number_text((#[trigger] elems[i]).x) && is_number_text(
                elems[i].y,
            ),
    ensures
        parse_anchor_list(
            joined(elems.map_values(|a: AnchorModel| anchor_json(a))) + seq![']'] + rest,
        ) == Some((elems, rest)),
{
    let m = elems.map_values(|a: AnchorModel| anchor_json(a));
    let s = joined(m) + seq![']'] + rest;
    if elems.len() == 0 {
        assert(s =~= "]"@ + rest) by {
            reveal_strlit("]");
        }
        lemma_expect_yes("]"@, rest);
        assert(Seq::<AnchorModel>::empty() =~= elems);
    } else {
        reveal_strlit("{\"name\":");
        reveal_strlit("]");
        assert(s[0] == '{') by {
            assert(anchor_json(elems[0])[0] == '{');
            assert(joined(m)[0] == m[0][0]) by {
                if m.len() == 1 {
                } else {
                    assert(joined(m) == m[0] + seq![','] + joined(m.drop_first()));
                }
            }
            assert(anchor_json(elems[0]).len() > 0);
        }
        lemma_expect_no(s, "]"@, 0);
        lemma_anchor_items_rt(elems, rest);
    }
}

/// Reading a written nonempty component list gives the components back.
#[verifier::rlimit(100)]
#[verifier::spinoff_prover]
proof fn lemma_component_items_rt(elems: Seq<ComponentModel>, rest: Seq<char>)
    requires
        elems.len() > 0,
        forall|i: int|
            0 <= i < elems.len() ==> crate::structs::transform_wf(
                (#[trigger] elems[i]).transformation,
            ),
    ensures
        parse_component_items(
            joined(elems.map_values(|c: ComponentModel| component_json(c))) + seq![']'] + rest,
        ) == Some((elems, rest)),
    decreases elems.len(),
{
    reveal_strlit(",");
    let m = elems.map_values(|c: ComponentModel| component_json(c));
    if elems.len() == 1 {
        let tail = seq![']'] + rest;
        assert(joined(m) + seq![']'] + rest =~= component_json(elems[0]) + tail);
        lemma_component_rt(elems[0], tail);
        assert(tail[0] == ']' && ","@[0] == ',');
        lemma_expect_no(tail, ","@, 0);
        assert(tail =~= "]"@ + rest) by {
            reveal_strlit("]");
        }
        lemma_expect_yes("]"@, rest);
        assert(seq![elems[0]] =~= elems);
    } else {
        let mrest = elems.drop_first().map_values(|c: ComponentModel| component_json(c));
        assert(m.drop_first() =~= mrest);
        assert(joined(m) == m[0] + seq![','] + joined(mrest));
        let inner = joined(mrest) + seq![']'] + rest;
        let tail = seq![','] + inner;
        assert(joined(m) + seq![']'] + rest =~= component_json(elems[0]) + tail);
        lemma_component_rt(elems[0], tail);
        assert(tail =~= ","@ + inner);
        lemma_expect_yes(","@, inner);
        lemma_component_items_rt(elems.drop_first(), rest);
        assert(seq![elems[0]] + elems.drop_first() =~= elems);
    }
}

/// Reading a written component list gives the components back.
proof fn lemma_component_list_rt(elems: Seq<ComponentModel>, rest: Seq<char>)
    requires
        forall|i: int|
            0 <= i < elems.len() ==> crate::structs::transform_wf(
                (#[trigger] elems[i]).transformation,
            ),
    ensures
        parse_component_list(
            joined(elems.map_values(|c: ComponentModel| component_json(c))) + seq![']'] + rest,
        ) == Some((elems, rest)),
{
    let m = elems.map_values(|c: ComponentModel| component_json(c));
    let s = joined(m) + seq![']'] + rest;
    if elems.len() == 0 {
        assert(s =~= "]"@ + rest) by {
            reveal_strlit("]");
        }
        lemma_expect_yes("]"@, rest);
        assert(Seq::<ComponentModel>::empty() =~= elems);
    } else {
        reveal_strlit("{\"name\":");
        reveal_strlit("]");
        assert(s[0] == '{') by {
            assert(component_json(elems[0])[0] == '{');
            assert(joined(m)[0] == m[0][0]) by {
                if m.len() == 1 {
                } else {
                    assert(joined(m) == m[0] + seq![','] + joined(m.drop_first()));
                }
            }
            assert(component_json(elems[0]).len() > 0);
        }
        lemma_expect_no(s, "]"@, 0);
        lemma_component_items_rt(elems, rest);
    }
}

/// Reading a written nonempty point list gives the points back.
proof fn lemma_point_items_rt(elems: Seq<PointModel>, rest: Seq<char>)
    requires
        elems.len() > 0,
        forall|i: int|
            0 <= i < elems.len() ==> is_number_text((#[trigger] elems[i]).x) && is_number_text(
                elems[i].y,
            ),
    ensures
        parse_point_items(
            joined(elems.map_values(|p: PointModel| point_json(p))) + seq![']'] + rest,
        ) == Some((elems, rest)),
    decreases elems.len(),
{
    reveal_strlit(",");
    let m = elems.map_values(|p: PointModel| point_json(p));
    if elems.len() == 1 {
        let tail = seq![']'] + rest;
        assert(joined(m) + seq![']'] + rest =~= point_json(elems[0]) + tail);
        lemma_point_rt(elems[0], tail);
        assert(tail[0] == ']' && ","@[0] == ',');
        lemma_expect_no(tail, ","@, 0);
        assert(tail =~= "]"@ + rest) by {
            reveal_strlit("]");
        }
        lemma_expect_yes("]"@, rest);
        assert(seq![elems[0]] =~= elems);
    } else {
        let mrest = elems.drop_first().map_values(|p: PointModel| point_json(p));
        assert(m.drop_first() =~= mrest);
        assert(joined(m) == m[0] + seq![','] + joined(mrest));
        let inner = joined(mrest) + seq![']'] + rest;
        let tail = seq![','] + inner;
        assert(joined(m) + seq![']'] + rest =~= point_json(elems[0]) + tail);
        lemma_point_rt(elems[0], tail);
        assert(tail =~= ","@ + inner);
        lemma_expect_yes(","@, inner);
        lemma_point_items_rt(elems.drop_first(), rest);
        assert(seq![elems[0]] + elems.drop_first() =~= elems);
    }
}

/// Reading a written point list gives the points back.
proof fn lemma_point_list_rt(elems: Seq<PointModel>, rest: Seq<char>)
    requires
        forall|i: int|
            0 <= i < elems.len() ==> is_number_text((#[trigger] elems[i]).x) && is_number_text(
                elems[i].y,
            ),
    ensures
        parse_point_list(
            joined(elems.map_values(|p: PointModel| point_json(p))) + seq![']'] + rest,
        ) == Some((elems, rest)),
{
    let m = elems.map_values(|p: PointModel| point_json(p));
    let s = joined(m) + seq![']'] + rest;
    if elems.len() == 0 {
        assert(s =~= "]"@ + rest) by {
            reveal_strlit("]");
        }
        lemma_expect_yes("]"@, rest);
        assert(Seq::<PointModel>::empty() =~= elems);
    } else {
        reveal_strlit("{\"x\":");
        reveal_strlit("]");
        assert(s[0] == '{') by {
            assert(point_json(elems[0])[0] == '{');
            assert(joined(m)[0] == m[0][0]) by {
                if m.len() == 1 {
                } else {
                    assert(joined(m) == m[0] + seq![','] + joined(m.drop_first()));
                }
            }
            assert(point_json(elems[0]).len() > 0);
        }
        lemma_expect_no(s, "]"@, 0);
        lemma_point_items_rt(elems, rest);
    }
}

/// Reading a written contour gives the contour back.
proof fn lemma_contour_rt(k: ContourModel, rest: Seq<char>)
    requires
        crate::structs::contour_wf(k),
    ensures
        parse_contour(contour_json(k) + rest) == Some((k, rest)),
{
    reveal_strlit("}");
    let t1 = joined(k.points.map_values(|p: PointModel| point_json(p))) + seq![']'] + ("}"@
        + rest);
    assert(contour_json(k) + rest =~= "{\"points\":["@ + t1) by {
        assert(contour_json(k) == "{\"points\":["@ + joined(
            k.points.map_values(|p: PointModel| point_json(p)),
        ) + "]}"@);
        reveal_strlit("]}");
    }
    lemma_expect_yes("{\"points\":["@, t1);
    lemma_point_list_rt(k.points, "}"@ + rest);
    lemma_expect_yes("}"@, rest);
    assert((ContourModel { points: k.points }) =~= k);
}

/// Reading a written nonempty contour list gives the contours back.
proof fn lemma_contour_items_rt(elems: Seq<ContourModel>, rest: Seq<char>)
    requires
        elems.len() > 0,
        forall|i: int| 0 <= i < elems.len() ==> crate::structs::contour_wf(#[trigger] elems[i]),
    ensures
        parse_contour_items(
            joined(elems.map_values(|c: ContourModel| contour_json(c))) + seq![']'] + rest,
        ) == Some((elems, rest)),
    decreases elems.len(),
{
    reveal_strlit(",");
    let m = elems.map_values(|c: ContourModel| contour_json(c));
    if elems.len() == 1 {
        let tail = seq![']'] + rest;
        assert(joined(m) + seq![']'] + rest =~= contour_json(elems[0]) + tail);
        lemma_contour_rt(elems[0], tail);
        assert(tail[0] == ']' && ","@[0] == ',');
        lemma_expect_no(tail, ","@, 0);
        assert(tail =~= "]"@ + rest) by {
            reveal_strlit("]");
        }
        lemma_expect_yes("]"@, rest);
        assert(seq![elems[0]] =~= elems);
    } else {
        let mrest = elems.drop_first().map_values(|c: ContourModel| contour_json(c));
        assert(m.drop_first() =~= mrest);
        assert(joined(m) == m[0] + seq![','] + joined(mrest));
        let inner = joined(mrest) + seq![']'] + rest;
        let tail = seq![','] + inner;
        assert(joined(m) + seq![']'] + rest =~= contour_json(elems[0]) + tail);
        lemma_contour_rt(elems[0], tail);
        assert(tail =~= ","@ + inner);
        lemma_expect_yes(","@, inner);
        lemma_contour_items_rt(elems.drop_first(), rest);
        assert(seq![elems[0]] + elems.drop_first() =~= elems);
    }
}

/// Reading a written contour list gives the contours back.
proof fn lemma_contour_list_rt(elems: Seq<ContourModel>, rest: Seq<char>)
    requires
        forall|i: int| 0 <= i < elems.len() ==> crate::structs::contour_wf(#[trigger] elems[i]),
    ensures
        parse_contour_list(
            joined(elems.map_values(|c: ContourModel| contour_json(c))) + seq![']'] + rest,
        ) == Some((elems, rest)),
{
    let m = elems.map_values(|c: ContourModel| contour_json(c));
    let s = joined(m) + seq![']'] + rest;
    if elems.len() == 0 {
        assert(s =~= "]"@ + rest) by {
            reveal_strlit("]");
        }
        lemma_expect_yes("]"@, rest);
        assert(Seq::<ContourModel>::empty() =~= elems);
    } else {
        reveal_strlit("{\"points\":[");
        reveal_strlit("]");
        assert(s[0] == '{') by {
            assert(contour_json(elems[0])[0] == '{');
            assert(joined(m)[0] == m[0][0]) by {
                if m.len() == 1 {
                } else {
                    assert(joined(m) == m[0] + seq![','] + joined(m.drop_first()));
                }
            }
            assert(contour_json(elems[0]).len() > 0);
        }
        lemma_expect_no(s, "]"@, 0);
        lemma_contour_items_rt(elems, rest);
    }
}

/// The tail of a written layer: the optional fields in canonical
/// order, then the closing brace.
pub open spec fn opts_text(
    vo: Option<Seq<char>>,
    xa: Option<Seq<char>>,
    ya: Option<Seq<char>>,
) -> Seq<char> {
    (match vo {
        Some(t) => ",\"vertical_origin\":"@ + t,
        None => Seq::<char>::empty(),
    }) + (match xa {
        Some(t) => ",\"x_advance\":"@ + t,
        None => Seq::<char>::empty(),
    }) + (match ya {
        Some(t) => ",\"y_advance\":"@ + t,
        None => Seq::<char>::empty(),
    }) + "}"@
}

/// Reading the optional trailing fields of a written layer gives each
/// field back and leaves exactly the closing brace.
proof fn lemma_opts_rt(vo: Option<Seq<char>>, xa: Option<Seq<char>>, ya: Option<Seq<char>>)
    requires
        vo matches Some(t) ==> is_number_text(t),
        xa matches Some(t) ==> is_number_text(t),
        ya matches Some(t) ==> is_number_text(t),
    ensures
        ({
            let opts = opts_text(vo, xa, ya);
            let after_vo = opts_text(None, xa, ya);
            let after_xa = opts_text(None, None, ya);
            parse_opt_num(opts, ",\"vertical_origin\":"@) == Some((vo, after_vo))
                && parse_opt_num(after_vo, ",\"x_advance\":"@) == Some((xa, after_xa))
                && parse_opt_num(after_xa, ",\"y_advance\":"@) == Some((ya, "}"@))
        }),
{
    reveal_strlit("}");
    reveal_strlit(",\"vertical_origin\":");
    reveal_strlit(",\"x_advance\":");
    reveal_strlit(",\"y_advance\":");
    let opts = opts_text(vo, xa, ya);
    let after_vo = opts_text(None, xa, ya);
    let after_xa = opts_text(None, None, ya);
    match vo {
        Some(t) => {
            assert(opts =~= ",\"vertical_origin\":"@ + (t + after_vo));
            lemma_expect_yes(",\"vertical_origin\":"@, t + after_vo);
            assert(after_vo.len() > 0 && (after_vo[0] == ',' || after_vo[0] == '}'));
            assert(!is_number_char(after_vo[0]));
            lemma_jnum_rt(t, after_vo, Seq::empty());
            assert(Seq::<char>::empty() + t =~= t);
        },
        None => {
            assert(opts =~= after_vo);
            assert(opts.len() > 0);
            if xa is Some {
                assert(opts[2] == 'x' && ",\"vertical_origin\":"@[2] == 'v');
                lemma_expect_no(opts, ",\"vertical_origin\":"@, 2);
            } else if ya is Some {
                assert(opts[2] == 'y' && ",\"vertical_origin\":"@[2] == 'v');
                lemma_expect_no(opts, ",\"vertical_origin\":"@, 2);
            } else {
                assert(opts[0] == '}');
                lemma_expect_no(opts, ",\"vertical_origin\":"@, 0);
            }
        },
    }
    match xa {
        Some(t) => {
            assert(after_vo =~= ",\"x_advance\":"@ + (t + after_xa));
            lemma_expect_yes(",\"x_advance\":"@, t + after_xa);
            assert(after_xa.len() > 0 && (after_xa[0] == ',' || after_xa[0] == '}'));
            assert(!is_number_char(after_xa[0]));
            lemma_jnum_rt(t, after_xa, Seq::empty());
            assert(Seq::<char>::empty() + t =~= t);
        },
        None => {
            assert(after_vo =~= after_xa);
            assert(after_vo.len() > 0);
            if ya is Some {
                assert(after_vo[2] == 'y' && ",\"x_advance\":"@[2] == 'x');
                lemma_expect_no(after_vo, ",\"x_advance\":"@, 2);
            } else {
                assert(after_vo[0] == '}');
                lemma_expect_no(after_vo, ",\"x_advance\":"@, 0);
            }
        },
    }
    match ya {
        Some(t) => {
            assert(after_xa =~= ",\"y_advance\":"@ + (t + "}"@));
            lemma_expect_yes(",\"y_advance\":"@, t + "}"@);
            assert("}"@[0] == '}' && !is_number_char('}'));
            lemma_jnum_rt(t, "}"@, Seq::empty());
            assert(Seq::<char>::empty() + t =~= t);
        },
        None => {
            assert(after_xa =~= "}"@);
            assert(after_xa[0] == '}');
            lemma_expect_no(after_xa, ",\"y_advance\":"@, 0);
        },
    }
}

/// A written layer decomposes into its leading literal and the chain
/// of its parts.
#[verifier::rlimit(100)]
#[verifier::spinoff_prover]
proof fn lemma_layer_json_shape(l: LayerModel)
    ensures
        layer_json(l) == "{\"anchors\":["@ + (joined(
            l.anchors.map_values(|a: AnchorModel| anchor_json(a)),
        ) + seq![']'] + (",\"components\":["@ + (joined(
            l.components.map_values(|c: ComponentModel| component_json(c)),
        ) + seq![']'] + (",\"contours\":["@ + (joined(
            l.contours.map_values(|k: ContourModel| contour_json(k)),
        ) + seq![']'] + opts_text(l.vertical_origin, l.x_advance, l.y_advance)))))),
{
    reveal_strlit("],\"components\":[");
    reveal_strlit("],\"contours\":[");
    reveal_strlit(",\"components\":[");
    reveal_strlit(",\"contours\":[");
    reveal_strlit("]");
    assert("]"@ =~= seq![']']);
    assert("],\"components\":["@ =~= seq![']'] + ",\"components\":["@);
    assert("],\"contours\":["@ =~= seq![']'] + ",\"contours\":["@);
    assert(layer_json(l) =~= "{\"anchors\":["@ + (joined(
        l.anchors.map_values(|a: AnchorModel| anchor_json(a)),
    ) + seq![']'] + (",\"components\":["@ + (joined(
        l.components.map_values(|c: ComponentModel| component_json(c)),
    ) + seq![']'] + (",\"contours\":["@ + (joined(
        l.contours.map_values(|k: ContourModel| contour_json(k)),
    ) + seq![']'] + opts_text(l.vertical_origin, l.x_advance, l.y_advance)))))));
}

/// Round trip of the payload codec: a sound layer's written form reads
/// back as exactly that layer.
#[verifier::spinoff_prover]
pub proof fn lemma_layer_roundtrip(l: LayerModel)
    requires
        l.wf(),
    ensures
        parse_layer_text(layer_json(l)) == Some(l),
{
    let opts = opts_text(l.vertical_origin, l.x_advance, l.y_advance);
    let t3 = joined(l.contours.map_values(|k: ContourModel| contour_json(k))) + seq![']'] + opts;
    let t2 = joined(l.components.map_values(|c: ComponentModel| component_json(c))) + seq![']']
        + (",\"contours\":["@ + t3);
    let t1 = joined(l.anchors.map_values(|a: AnchorModel| anchor_json(a))) + seq![']']
        + (",\"components\":["@ + t2);
    lemma_layer_json_shape(l);
    lemma_expect_yes("{\"anchors\":["@, t1);
    lemma_anchor_list_rt(l.anchors, ",\"components\":["@ + t2);
    lemma_expect_yes(",\"components\":["@, t2);
    lemma_component_list_rt(l.components, ",\"contours\":["@ + t3);
    lemma_expect_yes(",\"contours\":["@, t3);
    lemma_contour_list_rt(l.contours, opts);
    lemma_opts_rt(l.vertical_origin, l.x_advance, l.y_advance);
    assert((LayerModel {
        anchors: l.anchors,
        components: l.components,
        contours: l.contours,
        vertical_origin: l.vertical_origin,
        x_advance: l.x_advance,
        y_advance: l.y_advance,
    }) =~= l);
}

} // verus!
