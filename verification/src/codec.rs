//! The cache payload codec: a compact textual encoding of an object,
//! byte-stable and round-trip safe.  Strings are length prefixed, so no
//! escaping is ever needed; numbers are decimal.

use vstd::prelude::*;
use crate::numbers::{dec_digits, is_digit, lemma_dec_digits_all_digits, lemma_parse_dec_render, parse_dec, u64_to_string};
use crate::object::{kind_letter, kind_letter_str, Tag, MemberV, OSMObject, OSMObjectV, OSMObjectType, OSMObjectSpecifics, OSMRelationMember, SpecificsV};
use crate::strutil::{chars_sub, chars_to_string, str_to_chars};

verus! {

/// Every numeric field of the object fits its machine representation;
/// holds of every object the library builds.
pub open spec fn wf_object(o: OSMObjectV) -> bool {
    &&& o.id <= u64::MAX
    &&& o.version <= u64::MAX
    &&& o.changeset <= u64::MAX
    &&& o.timestamp.len() <= usize::MAX
    &&& o.tags.len() <= usize::MAX
    &&& (forall|k: int|
        0 <= k < o.tags.len() ==> (#[trigger] o.tags[k]).0.len() <= usize::MAX
            && o.tags[k].1.len() <= usize::MAX)
    &&& match o.specifics {
        SpecificsV::Node { lon7, lat7 } => i64::MIN <= lon7 <= i64::MAX && i64::MIN <= lat7
            <= i64::MAX,
        SpecificsV::Way { nodes } => nodes.len() <= usize::MAX && (forall|k: int|
            0 <= k < nodes.len() ==> #[trigger] nodes[k] <= u64::MAX),
        SpecificsV::Relation { members } => members.len() <= usize::MAX && (forall|k: int|
            0 <= k < members.len() ==> (#[trigger] members[k]).ref_id <= u64::MAX
                && members[k].role.len() <= usize::MAX),
    }
}

/// A length-prefixed string: the length in decimal, a colon, the
/// characters themselves.
pub open spec fn enc_str(s: Seq<char>) -> Seq<char> {
    dec_digits(s.len()) + seq![':'] + s
}

/// A signed fixed-point coordinate value.
pub open spec fn enc_coord(v: int) -> Seq<char> {
    if v < 0 {
        seq!['-'] + dec_digits((-v) as nat)
    } else {
        dec_digits(v as nat)
    }
}

pub open spec fn enc_tag_list(tags: Seq<(Seq<char>, Seq<char>)>) -> Seq<char>
    decreases tags.len(),
{
    if tags.len() == 0 {
        Seq::empty()
    } else {
        enc_str(tags[0].0) + enc_str(tags[0].1) + enc_tag_list(tags.drop_first())
    }
}

pub open spec fn enc_node_list(nodes: Seq<nat>) -> Seq<char>
    decreases nodes.len(),
{
    if nodes.len() == 0 {
        Seq::empty()
    } else {
        dec_digits(nodes[0]) + seq![' '] + enc_node_list(nodes.drop_first())
    }
}

pub open spec fn enc_member_list(members: Seq<MemberV>) -> Seq<char>
    decreases members.len(),
{
    if members.len() == 0 {
        Seq::empty()
    } else {
        seq![kind_letter(members[0].m_type)] + dec_digits(members[0].ref_id) + seq![' ']
            + enc_str(members[0].role) + enc_member_list(members.drop_first())
    }
}

pub open spec fn enc_specifics(s: SpecificsV) -> Seq<char> {
    match s {
        SpecificsV::Node { lon7, lat7 } => enc_coord(lon7) + seq![' '] + enc_coord(lat7),
        SpecificsV::Way { nodes } => dec_digits(nodes.len()) + seq![';'] + enc_node_list(nodes),
        SpecificsV::Relation { members } => dec_digits(members.len()) + seq![';']
            + enc_member_list(members),
    }
}

/// The full encoding of one object.
pub open spec fn spec_encode(o: OSMObjectV) -> Seq<char> {
    seq![kind_letter(o.object_type())] + dec_digits(o.id) + seq![' '] + dec_digits(o.version)
        + seq![' '] + dec_digits(o.changeset) + seq![' '] + enc_str(o.timestamp) + dec_digits(
        o.tags.len(),
    ) + seq![';'] + enc_tag_list(o.tags) + enc_specifics(o.specifics)
}

fn append_lp_str(out: &mut String, s: &str)
    ensures
        final(out)@ == old(out)@ + enc_str(s@),
        s@.len() <= usize::MAX,
{
    let n = s.unicode_len();
    out.append(u64_to_string(n as u64).as_str());
    proof {
        reveal_strlit(":");
        assert(":"@ =~= seq![':']);
    }
    out.append(":");
    out.append(s);
    proof {
        assert(out@ =~= old(out)@ + enc_str(s@));
    }
}

fn append_coord(out: &mut String, v: i64)
    ensures
        final(out)@ == old(out)@ + enc_coord(v as int),
{
    proof {
        reveal_strlit("-");
        assert("-"@ =~= seq!['-']);
    }
    if v < 0 {
        out.append("-");
        let a: u64 = if v == i64::MIN {
            9223372036854775808u64
        } else {
            (-v) as u64
        };
        out.append(u64_to_string(a).as_str());
    } else {
        out.append(u64_to_string(v as u64).as_str());
    }
    proof {
        assert(out@ =~= old(out)@ + enc_coord(v as int));
    }
}

/// Encode an object for the cache.
pub fn encode_object(o: &OSMObject) -> (r: String)
    ensures
        r@ == spec_encode(o@),
        wf_object(o@),
{
    let mut out = kind_letter_str(o.object_type()).to_owned();
    proof {
        reveal_strlit(" ");
        reveal_strlit(";");
        assert(" "@ =~= seq![' ']);
        assert(";"@ =~= seq![';']);
    }
    out.append(u64_to_string(o.id).as_str());
    out.append(" ");
    out.append(u64_to_string(o.version).as_str());
    out.append(" ");
    out.append(u64_to_string(o.changeset).as_str());
    out.append(" ");
    append_lp_str(&mut out, o.timestamp.as_str());
    out.append(u64_to_string(o.tags.len() as u64).as_str());
    out.append(";");
    let ghost tags_v = o@.tags;
    let mut i: usize = 0;
    proof {
        assert(tags_v.skip(0) =~= tags_v);
    }
    while i < o.tags.len()
        invariant
            0 <= i <= o.tags.len(),
            tags_v == o@.tags,
            o.tags@.len() == tags_v.len(),
            forall|k: int| 0 <= k < tags_v.len() ==> tags_v[k] == (#[trigger] o.tags@[k])@,
            out@ + enc_tag_list(tags_v.skip(i as int)) == prefix_with_tags(o@, tags_v),
            forall|k: int|
                0 <= k < i ==> (#[trigger] tags_v[k]).0.len() <= usize::MAX && tags_v[k].1.len()
                    <= usize::MAX,
        decreases o.tags.len() - i,
    {
        proof {
            assert(tags_v.skip(i as int)[0] == tags_v[i as int]);
            assert(tags_v.skip(i as int).drop_first() =~= tags_v.skip(i + 1));
        }
        append_lp_str(&mut out, o.tags[i].key.as_str());
        append_lp_str(&mut out, o.tags[i].value.as_str());
        proof {
            assert(tags_v[i as int].0 == o.tags@[i as int].key@);
            assert(tags_v[i as int].1 == o.tags@[i as int].value@);
        }
        i += 1;
        proof {
            assert(out@ + enc_tag_list(tags_v.skip(i as int)) =~= prefix_with_tags(o@, tags_v));
        }
    }
    proof {
        assert(enc_tag_list(tags_v.skip(i as int)) =~= Seq::<char>::empty());
        assert(out@ =~= prefix_with_tags(o@, tags_v));
    }
    match &o.specifics {
        OSMObjectSpecifics::Node { lon7, lat7 } => {
            append_coord(&mut out, *lon7);
            out.append(" ");
            append_coord(&mut out, *lat7);
            proof {
                assert(out@ =~= spec_encode(o@));
            }
        },
        OSMObjectSpecifics::Way { nodes } => {
            out.append(u64_to_string(nodes.len() as u64).as_str());
            out.append(";");
            let ghost nodes_v = o@.specifics->Way_nodes;
            let ghost base = out@;
            let mut k: usize = 0;
            proof {
                assert(nodes_v.skip(0) =~= nodes_v);
                assert(nodes@.map_values(|n: u64| n as nat) == nodes_v);
            }
            while k < nodes.len()
                invariant
                    0 <= k <= nodes.len(),
                    nodes@.map_values(|n: u64| n as nat) == nodes_v,
                    nodes@.len() == nodes_v.len(),
                    out@ + enc_node_list(nodes_v.skip(k as int)) == base + enc_node_list(nodes_v),
                decreases nodes.len() - k,
            {
                proof {
                    reveal_strlit(" ");
                    assert(" "@ =~= seq![' ']);
                    assert(nodes_v.skip(k as int)[0] == nodes_v[k as int]);
                    assert(nodes_v[k as int] == nodes@[k as int] as nat);
                    assert(nodes_v.skip(k as int).drop_first() =~= nodes_v.skip(k + 1));
                }
                out.append(u64_to_string(nodes[k]).as_str());
                out.append(" ");
                k += 1;
                proof {
                    assert(out@ + enc_node_list(nodes_v.skip(k as int)) =~= base + enc_node_list(
                        nodes_v,
                    ));
                }
            }
            proof {
                assert(enc_node_list(nodes_v.skip(k as int)) =~= Seq::<char>::empty());
                assert(out@ =~= base + enc_node_list(nodes_v));
                assert(out@ =~= spec_encode(o@));
            }
        },
        OSMObjectSpecifics::Relation { members } => {
            out.append(u64_to_string(members.len() as u64).as_str());
            out.append(";");
            let ghost mem_v = o@.specifics->Relation_members;
            let ghost base = out@;
            let mut k: usize = 0;
            proof {
                assert(mem_v.skip(0) =~= mem_v);
                assert(members@.map_values(|m: OSMRelationMember| m@) == mem_v);
            }
            while k < members.len()
                invariant
                    0 <= k <= members.len(),
                    members@.map_values(|m: OSMRelationMember| m@) == mem_v,
                    members@.len() == mem_v.len(),
                    out@ + enc_member_list(mem_v.skip(k as int)) == base + enc_member_list(mem_v),
                    forall|k2: int|
                        0 <= k2 < k ==> (#[trigger] mem_v[k2]).role.len() <= usize::MAX,
                decreases members.len() - k,
            {
                proof {
                    reveal_strlit(" ");
                    assert(" "@ =~= seq![' ']);
                    assert(mem_v.skip(k as int)[0] == mem_v[k as int]);
                    assert(mem_v[k as int] == members@[k as int]@);
                    assert(mem_v.skip(k as int).drop_first() =~= mem_v.skip(k + 1));
                }
                out.append(kind_letter_str(members[k].m_type));
                out.append(u64_to_string(members[k].ref_id).as_str());
                out.append(" ");
                append_lp_str(&mut out, members[k].role.as_str());
                proof {
                    assert(mem_v[k as int].role == members@[k as int].role@);
                }
                k += 1;
                proof {
                    assert(out@ + enc_member_list(mem_v.skip(k as int)) =~= base + enc_member_list(
                        mem_v,
                    ));
                }
            }
            proof {
                assert(enc_member_list(mem_v.skip(k as int)) =~= Seq::<char>::empty());
                assert(out@ =~= base + enc_member_list(mem_v));
                assert(out@ =~= spec_encode(o@));
            }
        },
    }
    out
}

/// The encoding up to and including the tag list.
pub open spec fn prefix_with_tags(o: OSMObjectV, tags: Seq<(Seq<char>, Seq<char>)>) -> Seq<char> {
    seq![kind_letter(o.object_type())] + dec_digits(o.id) + seq![' '] + dec_digits(o.version)
        + seq![' '] + dec_digits(o.changeset) + seq![' '] + enc_str(o.timestamp) + dec_digits(
        o.tags.len(),
    ) + seq![';'] + enc_tag_list(tags)
}


/// `p` occurs in `s` at position `i`.
pub open spec fn matches_at(s: Seq<char>, i: int, p: Seq<char>) -> bool {
    0 <= i && i + p.len() <= s.len() && s.subrange(i, i + p.len() as int) == p
}

proof fn lemma_matches_at_points(s: Seq<char>, i: int, p: Seq<char>)
    requires
        matches_at(s, i, p),
    ensures
        forall|k: int| 0 <= k < p.len() ==> s[i + k] == #[trigger] p[k],
{
    assert forall|k: int| 0 <= k < p.len() implies s[i + k] == #[trigger] p[k] by {
        assert(s.subrange(i, i + p.len() as int)[k] == p[k]);
        assert(s.subrange(i, i + p.len() as int)[k] == s[i + k]);
    }
}

proof fn lemma_matches_at_split(s: Seq<char>, i: int, p: Seq<char>, q: Seq<char>)
    requires
        matches_at(s, i, p + q),
    ensures
        matches_at(s, i, p),
        matches_at(s, i + p.len(), q),
{
    let pq = p + q;
    lemma_matches_at_points(s, i, pq);
    assert forall|k: int| 0 <= k < p.len() implies s.subrange(i, i + p.len() as int)[k]
        == p[k] by {
        assert(pq[k] == p[k]);
        assert(s[i + k] == pq[k]);
        assert(s.subrange(i, i + p.len() as int)[k] == s[i + k]);
    }
    assert(s.subrange(i, i + p.len() as int) =~= p);
    assert forall|k: int|
        0 <= k < q.len() implies s.subrange(i + p.len(), i + p.len() + q.len() as int)[k]
        == q[k] by {
        assert(pq[p.len() + k] == q[k]);
        assert(s[i + p.len() + k] == pq[p.len() + k]);
        assert(s.subrange(i + p.len(), i + p.len() + q.len() as int)[k] == s[i + p.len() + k]);
    }
    assert(s.subrange(i + p.len(), i + p.len() + q.len() as int) =~= q);
}

/// Parse a decimal number that fits `u64`.
pub open spec fn parse_u64(s: Seq<char>, i: int) -> Option<(nat, int)> {
    match parse_dec(s, i) {
        Some(vj) => if vj.0 <= u64::MAX {
            Some(vj)
        } else {
            None
        },
        None => None,
    }
}

pub open spec fn expect_ch(s: Seq<char>, i: int, c: char) -> bool {
    0 <= i < s.len() && s[i] == c
}

/// Parse a length-prefixed string.
pub open spec fn parse_lp_str(s: Seq<char>, i: int) -> Option<(Seq<char>, int)> {
    match parse_dec(s, i) {
        Some(nj) => if nj.0 <= usize::MAX && expect_ch(s, nj.1, ':') && nj.1 + 1 + nj.0 <= s.len() {
            Some((s.subrange(nj.1 + 1, nj.1 + 1 + nj.0), nj.1 + 1 + nj.0))
        } else {
            None
        },
        None => None,
    }
}

/// Parse a signed fixed-point coordinate that fits `i64`.
pub open spec fn parse_coord(s: Seq<char>, i: int) -> Option<(int, int)> {
    if expect_ch(s, i, '-') {
        match parse_dec(s, i + 1) {
            Some(vj) => if vj.0 <= 9223372036854775808 {
                Some((-(vj.0 as int), vj.1))
            } else {
                None
            },
            None => None,
        }
    } else {
        match parse_dec(s, i) {
            Some(vj) => if vj.0 <= i64::MAX {
                Some((vj.0 as int, vj.1))
            } else {
                None
            },
            None => None,
        }
    }
}

pub open spec fn parse_kind(s: Seq<char>, i: int) -> Option<(OSMObjectType, int)> {
    if expect_ch(s, i, 'n') {
        Some((OSMObjectType::Node, i + 1))
    } else if expect_ch(s, i, 'w') {
        Some((OSMObjectType::Way, i + 1))
    } else if expect_ch(s, i, 'r') {
        Some((OSMObjectType::Relation, i + 1))
    } else {
        None
    }
}

pub open spec fn parse_tag_list(s: Seq<char>, i: int, cnt: nat) -> Option<
    (Seq<(Seq<char>, Seq<char>)>, int),
>
    decreases cnt,
{
    if cnt == 0 {
        Some((Seq::empty(), i))
    } else {
        match parse_lp_str(s, i) {
            Some(kj) => match parse_lp_str(s, kj.1) {
                Some(vj) => match parse_tag_list(s, vj.1, (cnt - 1) as nat) {
                    Some(rj) => Some((seq![(kj.0, vj.0)] + rj.0, rj.1)),
                    None => None,
                },
                None => None,
            },
            None => None,
        }
    }
}

pub open spec fn parse_node_list(s: Seq<char>, i: int, cnt: nat) -> Option<(Seq<nat>, int)>
    decreases cnt,
{
    if cnt == 0 {
        Some((Seq::empty(), i))
    } else {
        match parse_u64(s, i) {
            Some(vj) => if expect_ch(s, vj.1, ' ') {
                match parse_node_list(s, vj.1 + 1, (cnt - 1) as nat) {
                    Some(rj) => Some((seq![vj.0] + rj.0, rj.1)),
                    None => None,
                }
            } else {
                None
            },
            None => None,
        }
    }
}

pub open spec fn parse_member_list(s: Seq<char>, i: int, cnt: nat) -> Option<(Seq<MemberV>, int)>
    decreases cnt,
{
    if cnt == 0 {
        Some((Seq::empty(), i))
    } else {
        match parse_kind(s, i) {
            Some(tj) => match parse_u64(s, tj.1) {
                Some(vj) => if expect_ch(s, vj.1, ' ') {
                    match parse_lp_str(s, vj.1 + 1) {
                        Some(sj) => match parse_member_list(s, sj.1, (cnt - 1) as nat) {
                            Some(rj) => Some(
                                (
                                    seq![
                                        MemberV { m_type: tj.0, ref_id: vj.0, role: sj.0 },
                                    ] + rj.0,
                                    rj.1,
                                ),
                            ),
                            None => None,
                        },
                        None => None,
                    }
                } else {
                    None
                },
                None => None,
            },
            None => None,
        }
    }
}

/// Decode one object from its cache encoding; the whole text must be
/// consumed.
pub open spec fn spec_decode(s: Seq<char>) -> Option<OSMObjectV> {
    match parse_kind(s, 0) {
        None => None,
        Some(t) => match parse_u64(s, t.1) {
            None => None,
            Some(id) => if !expect_ch(s, id.1, ' ') {
                None
            } else {
                match parse_u64(s, id.1 + 1) {
                    None => None,
                    Some(ver) => if !expect_ch(s, ver.1, ' ') {
                        None
                    } else {
                        match parse_u64(s, ver.1 + 1) {
                            None => None,
                            Some(cs) => if !expect_ch(s, cs.1, ' ') {
                                None
                            } else {
                                match parse_lp_str(s, cs.1 + 1) {
                                    None => None,
                                    Some(ts) => spec_decode_tail(s, t.0, id.0, ver.0, cs.0, ts.0, ts.1),
                                }
                            },
                        }
                    },
                }
            },
        },
    }
}

/// The tag list and specifics of the encoding, after the common header.
pub open spec fn spec_decode_tail(
    s: Seq<char>,
    t: OSMObjectType,
    id: nat,
    version: nat,
    changeset: nat,
    timestamp: Seq<char>,
    i: int,
) -> Option<OSMObjectV> {
    match parse_u64(s, i) {
        None => None,
        Some(tc) => if !(tc.0 <= usize::MAX && expect_ch(s, tc.1, ';')) {
            None
        } else {
            match parse_tag_list(s, tc.1 + 1, tc.0) {
                None => None,
                Some(tags) => match spec_decode_specifics(s, t, tags.1) {
                    None => None,
                    Some(sp) => if sp.1 == s.len() {
                        Some(
                            OSMObjectV {
                                id: id,
                                timestamp: timestamp,
                                version: version,
                                changeset: changeset,
                                tags: tags.0,
                                specifics: sp.0,
                            },
                        )
                    } else {
                        None
                    },
                },
            }
        },
    }
}

pub open spec fn spec_decode_specifics(s: Seq<char>, t: OSMObjectType, i: int) -> Option<
    (SpecificsV, int),
> {
    match t {
        OSMObjectType::Node => match parse_coord(s, i) {
            None => None,
            Some(lon) => if !expect_ch(s, lon.1, ' ') {
                None
            } else {
                match parse_coord(s, lon.1 + 1) {
                    None => None,
                    Some(lat) => Some((SpecificsV::Node { lon7: lon.0, lat7: lat.0 }, lat.1)),
                }
            },
        },
        OSMObjectType::Way => match parse_u64(s, i) {
            None => None,
            Some(nc) => if !(nc.0 <= usize::MAX && expect_ch(s, nc.1, ';')) {
                None
            } else {
                match parse_node_list(s, nc.1 + 1, nc.0) {
                    None => None,
                    Some(ns) => Some((SpecificsV::Way { nodes: ns.0 }, ns.1)),
                }
            },
        },
        OSMObjectType::Relation => match parse_u64(s, i) {
            None => None,
            Some(mc) => if !(mc.0 <= usize::MAX && expect_ch(s, mc.1, ';')) {
                None
            } else {
                match parse_member_list(s, mc.1 + 1, mc.0) {
                    None => None,
                    Some(ms) => Some((SpecificsV::Relation { members: ms.0 }, ms.1)),
                }
            },
        },
    }
}


/// Position `b` is the end of the text or holds a non-digit.
pub open spec fn digit_boundary(s: Seq<char>, b: int) -> bool {
    b == s.len() || !is_digit(s[b])
}

proof fn lemma_parse_u64_render(s: Seq<char>, i: int, n: nat)
    requires
        n <= u64::MAX,
        matches_at(s, i, dec_digits(n)),
        digit_boundary(s, i + dec_digits(n).len()),
    ensures
        parse_u64(s, i) == Some((n, i + dec_digits(n).len() as int)),
{
    lemma_matches_at_points(s, i, dec_digits(n));
    lemma_parse_dec_render(s, i, n);
}

proof fn lemma_parse_lp_str_render(s: Seq<char>, i: int, str: Seq<char>)
    requires
        str.len() <= usize::MAX,
        matches_at(s, i, enc_str(str)),
    ensures
        parse_lp_str(s, i) == Some((str, i + enc_str(str).len() as int)),
{
    let n = str.len();
    let d = dec_digits(n);
    assert(enc_str(str) == d + seq![':'] + str);
    assert(d + seq![':'] + str =~= d + (seq![':'] + str));
    lemma_matches_at_split(s, i, d, seq![':'] + str);
    lemma_matches_at_split(s, i + d.len(), seq![':'], str);
    lemma_matches_at_points(s, i, d);
    lemma_matches_at_points(s, i + d.len(), seq![':']);
    lemma_matches_at_points(s, i + d.len() + 1, str);
    assert((seq![':'])[0] == ':');
    assert(s[i + d.len() + 0] == ':');
    assert(s[i + d.len()] == ':');
    assert(!is_digit(':'));
    lemma_parse_dec_render(s, i, n);
    assert(parse_dec(s, i) == Some((n, i + d.len() as int)));
    let j = i + d.len() as int;
    assert(expect_ch(s, j, ':'));
    assert(s.subrange(j + 1, j + 1 + n) =~= str);
}

proof fn lemma_parse_coord_render(s: Seq<char>, i: int, v: int)
    requires
        i64::MIN <= v <= i64::MAX,
        matches_at(s, i, enc_coord(v)),
        digit_boundary(s, i + enc_coord(v).len()),
    ensures
        parse_coord(s, i) == Some((v, i + enc_coord(v).len() as int)),
{
    if v < 0 {
        let a = (-v) as nat;
        lemma_matches_at_split(s, i, seq!['-'], dec_digits(a));
        lemma_matches_at_points(s, i, seq!['-']);
        lemma_matches_at_points(s, i + 1, dec_digits(a));
        assert((seq!['-'])[0] == '-');
        assert(s[i + 0] == '-');
        assert(s[i] == '-');
        assert(!is_digit('-'));
        lemma_parse_dec_render(s, i + 1, a);
        assert(a <= 9223372036854775808);
    } else {
        lemma_matches_at_points(s, i, dec_digits(v as nat));
        lemma_parse_dec_render(s, i, v as nat);
        lemma_dec_digits_all_digits(v as nat);
        assert(s[i] == dec_digits(v as nat)[0]);
        assert(is_digit(s[i]));
        assert(!expect_ch(s, i, '-'));
    }
}

proof fn lemma_parse_tag_list_render(s: Seq<char>, i: int, tags: Seq<(Seq<char>, Seq<char>)>)
    requires
        matches_at(s, i, enc_tag_list(tags)),
        forall|k: int|
            0 <= k < tags.len() ==> (#[trigger] tags[k]).0.len() <= usize::MAX && tags[k].1.len()
                <= usize::MAX,
    ensures
        parse_tag_list(s, i, tags.len()) == Some((tags, i + enc_tag_list(tags).len() as int)),
    decreases tags.len(),
{
    if tags.len() == 0 {
        assert(parse_tag_list(s, i, 0) == Some((Seq::<(Seq<char>, Seq<char>)>::empty(), i)));
        assert(tags =~= Seq::<(Seq<char>, Seq<char>)>::empty());
    } else {
        let k0 = tags[0].0;
        let v0 = tags[0].1;
        let rest = tags.drop_first();
        assert(enc_tag_list(tags) == enc_str(k0) + enc_str(v0) + enc_tag_list(rest));
        assert(enc_str(k0) + enc_str(v0) + enc_tag_list(rest) =~= enc_str(k0) + (enc_str(v0)
            + enc_tag_list(rest)));
        lemma_matches_at_split(s, i, enc_str(k0), enc_str(v0) + enc_tag_list(rest));
        lemma_matches_at_split(s, i + enc_str(k0).len(), enc_str(v0), enc_tag_list(rest));
        lemma_parse_lp_str_render(s, i, k0);
        let j1 = i + enc_str(k0).len() as int;
        lemma_parse_lp_str_render(s, j1, v0);
        let j2 = j1 + enc_str(v0).len() as int;
        lemma_parse_tag_list_render(s, j2, rest);
        assert(seq![(k0, v0)] + rest =~= tags);
    }
}

proof fn lemma_parse_node_list_render(s: Seq<char>, i: int, nodes: Seq<nat>)
    requires
        matches_at(s, i, enc_node_list(nodes)),
        forall|k: int| 0 <= k < nodes.len() ==> #[trigger] nodes[k] <= u64::MAX,
    ensures
        parse_node_list(s, i, nodes.len()) == Some((nodes, i + enc_node_list(nodes).len() as int)),
    decreases nodes.len(),
{
    if nodes.len() == 0 {
        assert(nodes =~= Seq::<nat>::empty());
    } else {
        let n0 = nodes[0];
        let rest = nodes.drop_first();
        let d = dec_digits(n0);
        assert(enc_node_list(nodes) == d + seq![' '] + enc_node_list(rest));
        assert(d + seq![' '] + enc_node_list(rest) =~= d + (seq![' '] + enc_node_list(rest)));
        lemma_matches_at_split(s, i, d, seq![' '] + enc_node_list(rest));
        lemma_matches_at_split(s, i + d.len(), seq![' '], enc_node_list(rest));
        lemma_matches_at_points(s, i + d.len(), seq![' ']);
        assert((seq![' '])[0] == ' ');
        assert(s[i + d.len() + 0] == ' ');
        assert(s[i + d.len()] == ' ');
        assert(!is_digit(' '));
        lemma_parse_u64_render(s, i, n0);
        let j = i + d.len() as int;
        assert(expect_ch(s, j, ' '));
        lemma_parse_node_list_render(s, j + 1, rest);
        assert(seq![n0] + rest =~= nodes);
    }
}

proof fn lemma_parse_member_list_render(s: Seq<char>, i: int, members: Seq<MemberV>)
    requires
        matches_at(s, i, enc_member_list(members)),
        forall|k: int|
            0 <= k < members.len() ==> (#[trigger] members[k]).ref_id <= u64::MAX
                && members[k].role.len() <= usize::MAX,
    ensures
        parse_member_list(s, i, members.len()) == Some(
            (members, i + enc_member_list(members).len() as int),
        ),
    decreases members.len(),
{
    if members.len() == 0 {
        assert(members =~= Seq::<MemberV>::empty());
    } else {
        let m0 = members[0];
        let rest = members.drop_first();
        let kl = seq![kind_letter(m0.m_type)];
        let d = dec_digits(m0.ref_id);
        assert(enc_member_list(members) == kl + d + seq![' '] + enc_str(m0.role) + enc_member_list(
            rest,
        ));
        assert(kl + d + seq![' '] + enc_str(m0.role) + enc_member_list(rest) =~= kl + (d + (seq![
            ' ',
        ] + (enc_str(m0.role) + enc_member_list(rest)))));
        lemma_matches_at_split(s, i, kl, d + (seq![' '] + (enc_str(m0.role) + enc_member_list(rest))));
        lemma_matches_at_split(s, i + 1, d, seq![' '] + (enc_str(m0.role) + enc_member_list(rest)));
        lemma_matches_at_split(s, i + 1 + d.len(), seq![' '], enc_str(m0.role) + enc_member_list(rest));
        lemma_matches_at_split(s, i + 1 + d.len() + 1, enc_str(m0.role), enc_member_list(rest));
        lemma_matches_at_points(s, i, kl);
        lemma_matches_at_points(s, i + 1 + d.len(), seq![' ']);
        assert(kl[0] == kind_letter(m0.m_type));
        assert(s[i + 0] == kl[0]);
        assert(s[i] == kind_letter(m0.m_type));
        assert((seq![' '])[0] == ' ');
        assert(s[i + 1 + d.len() + 0] == ' ');
        match m0.m_type {
            OSMObjectType::Node => {
                assert(parse_kind(s, i) == Some((OSMObjectType::Node, i + 1)));
            },
            OSMObjectType::Way => {
                assert(s[i] == 'w');
                assert(parse_kind(s, i) == Some((OSMObjectType::Way, i + 1)));
            },
            OSMObjectType::Relation => {
                assert(s[i] == 'r');
                assert(parse_kind(s, i) == Some((OSMObjectType::Relation, i + 1)));
            },
        }
        assert(s[i + 1 + d.len()] == ' ');
        assert(!is_digit(' '));
        lemma_parse_u64_render(s, i + 1, m0.ref_id);
        let j = i + 1 + d.len() as int;
        assert(expect_ch(s, j, ' '));
        lemma_parse_lp_str_render(s, j + 1, m0.role);
        let j2 = j + 1 + enc_str(m0.role).len() as int;
        lemma_parse_member_list_render(s, j2, rest);
        assert(seq![MemberV { m_type: m0.m_type, ref_id: m0.ref_id, role: m0.role }] + rest
            =~= members);
    }
}

/// The length of the encoded header, up to and excluding the tag count.
pub open spec fn enc_header_len(o: OSMObjectV) -> int {
    1int + dec_digits(o.id).len() + 1 + dec_digits(o.version).len() + 1 + dec_digits(
        o.changeset,
    ).len() + 1 + enc_str(o.timestamp).len()
}

#[verifier::rlimit(100)]
#[verifier::spinoff_prover]
proof fn lemma_decode_encode_header(s: Seq<char>, o: OSMObjectV)
    requires
        wf_object(o),
        s == spec_encode(o),
    ensures
        spec_decode(s) == spec_decode_tail(
            s,
            o.object_type(),
            o.id,
            o.version,
            o.changeset,
            o.timestamp,
            enc_header_len(o),
        ),
        matches_at(
            s,
            enc_header_len(o),
            dec_digits(o.tags.len()) + seq![';'] + enc_tag_list(o.tags) + enc_specifics(
                o.specifics,
            ),
        ),
        enc_header_len(o) + (dec_digits(o.tags.len()) + seq![';'] + enc_tag_list(o.tags)
            + enc_specifics(o.specifics)).len() == s.len(),
{
    let kl = seq![kind_letter(o.object_type())];
    let p_id = dec_digits(o.id);
    let p_ver = dec_digits(o.version);
    let p_cs = dec_digits(o.changeset);
    let p_ts = enc_str(o.timestamp);
    let tail = dec_digits(o.tags.len()) + seq![';'] + enc_tag_list(o.tags) + enc_specifics(
        o.specifics,
    );
    assert(s =~= kl + (p_id + (seq![' '] + (p_ver + (seq![' '] + (p_cs + (seq![' '] + (p_ts
        + tail))))))));
    assert(matches_at(s, 0, s)) by {
        assert(s.subrange(0, s.len() as int) =~= s);
    }
    lemma_matches_at_split(s, 0, kl, p_id + (seq![' '] + (p_ver + (seq![' '] + (p_cs + (seq![' ']
        + (p_ts + tail)))))));
    let i1 = 1;
    lemma_matches_at_split(s, i1, p_id, seq![' '] + (p_ver + (seq![' '] + (p_cs + (seq![' '] + (p_ts
        + tail))))));
    let i2 = i1 + p_id.len() as int;
    lemma_matches_at_split(s, i2, seq![' '], p_ver + (seq![' '] + (p_cs + (seq![' '] + (p_ts
        + tail)))));
    let i3 = i2 + 1;
    lemma_matches_at_split(s, i3, p_ver, seq![' '] + (p_cs + (seq![' '] + (p_ts + tail))));
    let i4 = i3 + p_ver.len() as int;
    lemma_matches_at_split(s, i4, seq![' '], p_cs + (seq![' '] + (p_ts + tail)));
    let i5 = i4 + 1;
    lemma_matches_at_split(s, i5, p_cs, seq![' '] + (p_ts + tail));
    let i6 = i5 + p_cs.len() as int;
    lemma_matches_at_split(s, i6, seq![' '], p_ts + tail);
    let i7 = i6 + 1;
    lemma_matches_at_split(s, i7, p_ts, tail);
    let i8 = i7 + p_ts.len() as int;

    lemma_matches_at_points(s, 0, kl);
    lemma_matches_at_points(s, i2, seq![' ']);
    lemma_matches_at_points(s, i4, seq![' ']);
    lemma_matches_at_points(s, i6, seq![' ']);
    assert((seq![' '])[0] == ' ' && kl[0] == kind_letter(o.object_type()));
    assert(s[i2 + 0] == ' ' && s[i4 + 0] == ' ' && s[i6 + 0] == ' ');
    assert(s[0int + 0] == kl[0]);
    assert(s[i2] == ' ' && s[i4] == ' ' && s[i6] == ' ');
    assert(!is_digit(' '));

    match o.object_type() {
        OSMObjectType::Node => {
            assert(parse_kind(s, 0) == Some((OSMObjectType::Node, i1)));
        },
        OSMObjectType::Way => {
            assert(s[0] == 'w');
            assert(parse_kind(s, 0) == Some((OSMObjectType::Way, i1)));
        },
        OSMObjectType::Relation => {
            assert(s[0] == 'r');
            assert(parse_kind(s, 0) == Some((OSMObjectType::Relation, i1)));
        },
    }
    lemma_parse_u64_render(s, i1, o.id);
    lemma_parse_u64_render(s, i3, o.version);
    lemma_parse_u64_render(s, i5, o.changeset);
    lemma_parse_lp_str_render(s, i7, o.timestamp);
    assert(i8 == enc_header_len(o));
}

#[verifier::rlimit(100)]
#[verifier::spinoff_prover]
proof fn lemma_decode_encode_specifics(s: Seq<char>, o: OSMObjectV, i11: int)
    requires
        wf_object(o),
        matches_at(s, i11, enc_specifics(o.specifics)),
        i11 + enc_specifics(o.specifics).len() == s.len(),
    ensures
        spec_decode_specifics(s, o.object_type(), i11) == Some((o.specifics, s.len() as int)),
{
    match o.specifics {
        SpecificsV::Node { lon7, lat7 } => {
            let c1 = enc_coord(lon7);
            let c2 = enc_coord(lat7);
            assert(enc_specifics(o.specifics) =~= c1 + (seq![' '] + c2));
            lemma_matches_at_split(s, i11, c1, seq![' '] + c2);
            let j1 = i11 + c1.len() as int;
            lemma_matches_at_split(s, j1, seq![' '], c2);
            lemma_matches_at_points(s, j1, seq![' ']);
            assert((seq![' '])[0] == ' ');
            assert(s[j1 + 0] == ' ');
            assert(s[j1] == ' ');
            assert(!is_digit(' '));
            lemma_parse_coord_render(s, i11, lon7);
            lemma_parse_coord_render(s, j1 + 1, lat7);
            assert(j1 + 1 + c2.len() == s.len());
        },
        SpecificsV::Way { nodes } => {
            let d = dec_digits(nodes.len());
            assert(enc_specifics(o.specifics) =~= d + (seq![';'] + enc_node_list(nodes)));
            lemma_matches_at_split(s, i11, d, seq![';'] + enc_node_list(nodes));
            let j1 = i11 + d.len() as int;
            lemma_matches_at_split(s, j1, seq![';'], enc_node_list(nodes));
            lemma_matches_at_points(s, j1, seq![';']);
            assert((seq![';'])[0] == ';');
            assert(s[j1 + 0] == ';');
            assert(s[j1] == ';');
            assert(!is_digit(';'));
            lemma_parse_u64_render(s, i11, nodes.len());
            lemma_parse_node_list_render(s, j1 + 1, nodes);
            assert(j1 + 1 + enc_node_list(nodes).len() == s.len());
        },
        SpecificsV::Relation { members } => {
            let d = dec_digits(members.len());
            assert(enc_specifics(o.specifics) =~= d + (seq![';'] + enc_member_list(members)));
            lemma_matches_at_split(s, i11, d, seq![';'] + enc_member_list(members));
            let j1 = i11 + d.len() as int;
            lemma_matches_at_split(s, j1, seq![';'], enc_member_list(members));
            lemma_matches_at_points(s, j1, seq![';']);
            assert((seq![';'])[0] == ';');
            assert(s[j1 + 0] == ';');
            assert(s[j1] == ';');
            assert(!is_digit(';'));
            lemma_parse_u64_render(s, i11, members.len());
            lemma_parse_member_list_render(s, j1 + 1, members);
            assert(j1 + 1 + enc_member_list(members).len() == s.len());
        },
    }
}

/// Decoding an encoded well-formed object returns the same object.
#[verifier::rlimit(100)]
#[verifier::spinoff_prover]
pub proof fn lemma_decode_encode(o: OSMObjectV)
    requires
        wf_object(o),
    ensures
        spec_decode(spec_encode(o)) == Some(o),
{
    let s = spec_encode(o);
    lemma_decode_encode_header(s, o);
    let i8 = enc_header_len(o);
    let p_tc = dec_digits(o.tags.len());
    let p_tags = enc_tag_list(o.tags);
    let p_sp = enc_specifics(o.specifics);
    assert(p_tc + seq![';'] + p_tags + p_sp =~= p_tc + (seq![';'] + (p_tags + p_sp)));
    lemma_matches_at_split(s, i8, p_tc, seq![';'] + (p_tags + p_sp));
    let i9 = i8 + p_tc.len() as int;
    lemma_matches_at_split(s, i9, seq![';'], p_tags + p_sp);
    lemma_matches_at_points(s, i9, seq![';']);
    assert((seq![';'])[0] == ';');
    assert(s[i9 + 0] == ';');
    assert(s[i9] == ';');
    assert(!is_digit(';'));
    lemma_parse_u64_render(s, i8, o.tags.len());
    let i10 = i9 + 1;
    lemma_matches_at_split(s, i10, p_tags, p_sp);
    let i11 = i10 + p_tags.len() as int;
    lemma_parse_tag_list_render(s, i10, o.tags);
    lemma_decode_encode_specifics(s, o, i11);
    assert(spec_decode_tail(s, o.object_type(), o.id, o.version, o.changeset, o.timestamp, i8)
        == Some(o));
}

/// The numeric value of a digit character, if it is one.
pub fn digit_of(c: char) -> (r: Option<u64>)
    ensures
        match r {
            Some(d) => is_digit(c) && d < 10 && d as nat == crate::numbers::digit_val(c),
            None => !is_digit(c),
        },
{
    match c {
        '0' => Some(0),
        '1' => Some(1),
        '2' => Some(2),
        '3' => Some(3),
        '4' => Some(4),
        '5' => Some(5),
        '6' => Some(6),
        '7' => Some(7),
        '8' => Some(8),
        '9' => Some(9),
        _ => None,
    }
}

proof fn lemma_scan_dec_monotone(s: Seq<char>, i: int, acc: nat)
    ensures
        crate::numbers::scan_dec(s, i, acc).0 >= acc,
    decreases s.len() - i,
{
    if 0 <= i < s.len() && is_digit(s[i]) {
        lemma_scan_dec_monotone(s, i + 1, acc * 10 + crate::numbers::digit_val(s[i]));
    }
}

/// Whether a character is a decimal digit.
pub fn is_digit_ch(c: char) -> (b: bool)
    ensures
        b == is_digit(c),
{
    c == '0' || c == '1' || c == '2' || c == '3' || c == '4' || c == '5' || c == '6' || c == '7'
        || c == '8' || c == '9'
}

/// Parse a decimal number that fits `u64`.
pub fn e_parse_u64(s: &Vec<char>, i: usize) -> (r: Option<(u64, usize)>)
    requires
        i <= s@.len(),
    ensures
        match r {
            Some(p) => parse_u64(s@, i as int) == Some((p.0 as nat, p.1 as int)) && i < p.1
                <= s@.len(),
            None => parse_u64(s@, i as int) is None,
        },
{
    if i >= s.len() {
        return None;
    }
    if !is_digit_ch(s[i]) {
        return None;
    }
    let mut acc: u64 = 0;
    let mut j: usize = i;
    while j < s.len() && is_digit_ch(s[j])
        invariant
            i <= j <= s@.len(),
            crate::numbers::scan_dec(s@, i as int, 0) == crate::numbers::scan_dec(
                s@,
                j as int,
                acc as nat,
            ),
        decreases s@.len() - j,
    {
        let d = match digit_of(s[j]) {
            Some(d) => d,
            None => 0,
        };
        if acc > (u64::MAX - d) / 10 {
            proof {
                lemma_scan_dec_monotone(s@, j + 1, acc as nat * 10 + d as nat);
                assert(acc as nat * 10 + d as nat > u64::MAX);
            }
            return None;
        }
        acc = acc * 10 + d;
        j += 1;
    }
    proof {
        assert(crate::numbers::scan_dec(s@, j as int, acc as nat) == (acc as nat, j as int));
        if j == i {
            assert(is_digit(s@[i as int]));
            assert(false);
        }
    }
    Some((acc, j))
}

/// Parse a length-prefixed string.
fn e_parse_lp_str(s: &Vec<char>, i: usize) -> (r: Option<(String, usize)>)
    requires
        i <= s@.len(),
    ensures
        match r {
            Some(p) => parse_lp_str(s@, i as int) == Some((p.0@, p.1 as int)) && i < p.1
                <= s@.len(),
            None => parse_lp_str(s@, i as int) is None,
        },
{
    let (n, j) = match e_parse_u64(s, i) {
        Some(p) => p,
        None => {
            return None;
        },
    };
    if !(n <= usize::MAX as u64) {
        return None;
    }
    let n_us = n as usize;
    if !(j < s.len() && s[j] == ':') {
        return None;
    }
    if !(n_us <= s.len() - j - 1) {
        return None;
    }
    let part = chars_sub(s, j + 1, j + 1 + n_us);
    let st = chars_to_string(&part);
    Some((st, j + 1 + n_us))
}

/// Parse a signed fixed-point coordinate.
fn e_parse_coord(s: &Vec<char>, i: usize) -> (r: Option<(i64, usize)>)
    requires
        i <= s@.len(),
    ensures
        match r {
            Some(p) => parse_coord(s@, i as int) == Some((p.0 as int, p.1 as int)) && i < p.1
                <= s@.len(),
            None => parse_coord(s@, i as int) is None,
        },
{
    if i < s.len() && s[i] == '-' {
        let (v, j) = match e_parse_u64(s, i + 1) {
            Some(p) => p,
            None => {
                return None;
            },
        };
        if v > 9223372036854775808u64 {
            return None;
        }
        let c: i64 = if v == 9223372036854775808u64 {
            i64::MIN
        } else {
            -(v as i64)
        };
        Some((c, j))
    } else {
        let (v, j) = match e_parse_u64(s, i) {
            Some(p) => p,
            None => {
                return None;
            },
        };
        if v > i64::MAX as u64 {
            return None;
        }
        Some((v as i64, j))
    }
}

fn e_parse_kind(s: &Vec<char>, i: usize) -> (r: Option<(OSMObjectType, usize)>)
    requires
        i <= s@.len(),
    ensures
        match r {
            Some(p) => parse_kind(s@, i as int) == Some((p.0, p.1 as int)) && p.1 == i + 1
                && i < s@.len(),
            None => parse_kind(s@, i as int) is None,
        },
{
    if i >= s.len() {
        return None;
    }
    let c = s[i];
    if c == 'n' {
        Some((OSMObjectType::Node, i + 1))
    } else if c == 'w' {
        Some((OSMObjectType::Way, i + 1))
    } else if c == 'r' {
        Some((OSMObjectType::Relation, i + 1))
    } else {
        None
    }
}

fn e_parse_tag_list(s: &Vec<char>, i: usize, cnt: usize) -> (r: Option<(Vec<Tag>, usize)>)
    requires
        i <= s@.len(),
    ensures
        match r {
            Some(p) => parse_tag_list(s@, i as int, cnt as nat) == Some(
                (p.0@.map_values(|t: Tag| t@), p.1 as int),
            ) && i <= p.1 <= s@.len(),
            None => parse_tag_list(s@, i as int, cnt as nat) is None,
        },
    decreases cnt,
{
    if cnt == 0 {
        let v: Vec<Tag> = Vec::new();
        proof {
            assert(v@.map_values(|t: Tag| t@) =~= Seq::<(Seq<char>, Seq<char>)>::empty());
        }
        return Some((v, i));
    }
    let (k, j1) = match e_parse_lp_str(s, i) {
        Some(p) => p,
        None => {
            return None;
        },
    };
    let (v, j2) = match e_parse_lp_str(s, j1) {
        Some(p) => p,
        None => {
            return None;
        },
    };
    let (mut rest, j3) = match e_parse_tag_list(s, j2, cnt - 1) {
        Some(p) => p,
        None => {
            return None;
        },
    };
    let ghost rest_v = rest@.map_values(|t: Tag| t@);
    rest.insert(0, Tag { key: k, value: v });
    proof {
        assert(rest@.map_values(|t: Tag| t@) =~= seq![(k@, v@)] + rest_v);
    }
    Some((rest, j3))
}

fn e_parse_node_list(s: &Vec<char>, i: usize, cnt: usize) -> (r: Option<(Vec<u64>, usize)>)
    requires
        i <= s@.len(),
    ensures
        match r {
            Some(p) => parse_node_list(s@, i as int, cnt as nat) == Some(
                (p.0@.map_values(|n: u64| n as nat), p.1 as int),
            ) && i <= p.1 <= s@.len(),
            None => parse_node_list(s@, i as int, cnt as nat) is None,
        },
    decreases cnt,
{
    if cnt == 0 {
        let v: Vec<u64> = Vec::new();
        proof {
            assert(v@.map_values(|n: u64| n as nat) =~= Seq::<nat>::empty());
        }
        return Some((v, i));
    }
    let (n, j1) = match e_parse_u64(s, i) {
        Some(p) => p,
        None => {
            return None;
        },
    };
    if !(j1 < s.len() && s[j1] == ' ') {
        return None;
    }
    let (mut rest, j2) = match e_parse_node_list(s, j1 + 1, cnt - 1) {
        Some(p) => p,
        None => {
            return None;
        },
    };
    let ghost rest_v = rest@.map_values(|n: u64| n as nat);
    rest.insert(0, n);
    proof {
        assert(rest@.map_values(|n: u64| n as nat) =~= seq![n as nat] + rest_v);
    }
    Some((rest, j2))
}

fn e_parse_member_list(s: &Vec<char>, i: usize, cnt: usize) -> (r: Option<
    (Vec<OSMRelationMember>, usize),
>)
    requires
        i <= s@.len(),
    ensures
        match r {
            Some(p) => parse_member_list(s@, i as int, cnt as nat) == Some(
                (p.0@.map_values(|m: OSMRelationMember| m@), p.1 as int),
            ) && i <= p.1 <= s@.len(),
            None => parse_member_list(s@, i as int, cnt as nat) is None,
        },
    decreases cnt,
{
    if cnt == 0 {
        let v: Vec<OSMRelationMember> = Vec::new();
        proof {
            assert(v@.map_values(|m: OSMRelationMember| m@) =~= Seq::<MemberV>::empty());
        }
        return Some((v, i));
    }
    let (t, j1) = match e_parse_kind(s, i) {
        Some(p) => p,
        None => {
            return None;
        },
    };
    let (rid, j2) = match e_parse_u64(s, j1) {
        Some(p) => p,
        None => {
            return None;
        },
    };
    if !(j2 < s.len() && s[j2] == ' ') {
        return None;
    }
    let (role, j3) = match e_parse_lp_str(s, j2 + 1) {
        Some(p) => p,
        None => {
            return None;
        },
    };
    let (mut rest, j4) = match e_parse_member_list(s, j3, cnt - 1) {
        Some(p) => p,
        None => {
            return None;
        },
    };
    let ghost rest_v = rest@.map_values(|m: OSMRelationMember| m@);
    let m = OSMRelationMember { m_type: t, ref_id: rid, role };
    let ghost m_v = m@;
    rest.insert(0, m);
    proof {
        assert(rest@.map_values(|m2: OSMRelationMember| m2@) =~= seq![m_v] + rest_v);
    }
    Some((rest, j4))
}

/// Decode one object from its cache encoding.
pub fn decode_object(s: &Vec<char>) -> (r: Option<OSMObject>)
    ensures
        match r {
            Some(o) => spec_decode(s@) == Some(o@),
            None => spec_decode(s@) is None,
        },
{
    let (t, i1) = match e_parse_kind(s, 0) {
        Some(p) => p,
        None => {
            return None;
        },
    };
    let (id, i2) = match e_parse_u64(s, i1) {
        Some(p) => p,
        None => {
            return None;
        },
    };
    if !(i2 < s.len() && s[i2] == ' ') {
        return None;
    }
    let (ver, i3) = match e_parse_u64(s, i2 + 1) {
        Some(p) => p,
        None => {
            return None;
        },
    };
    if !(i3 < s.len() && s[i3] == ' ') {
        return None;
    }
    let (cs, i4) = match e_parse_u64(s, i3 + 1) {
        Some(p) => p,
        None => {
            return None;
        },
    };
    if !(i4 < s.len() && s[i4] == ' ') {
        return None;
    }
    let (ts, i5) = match e_parse_lp_str(s, i4 + 1) {
        Some(p) => p,
        None => {
            return None;
        },
    };
    let (tc, i6) = match e_parse_u64(s, i5) {
        Some(p) => p,
        None => {
            return None;
        },
    };
    if !(tc <= usize::MAX as u64 && i6 < s.len() && s[i6] == ';') {
        return None;
    }
    let (tags, i7) = match e_parse_tag_list(s, i6 + 1, tc as usize) {
        Some(p) => p,
        None => {
            return None;
        },
    };
    match t {
        OSMObjectType::Node => {
            let (lon7, j1) = match e_parse_coord(s, i7) {
                Some(p) => p,
                None => {
                    return None;
                },
            };
            if !(j1 < s.len() && s[j1] == ' ') {
                return None;
            }
            let (lat7, j2) = match e_parse_coord(s, j1 + 1) {
                Some(p) => p,
                None => {
                    return None;
                },
            };
            if j2 != s.len() {
                return None;
            }
            Some(
                OSMObject {
                    id,
                    timestamp: ts,
                    version: ver,
                    changeset: cs,
                    tags,
                    specifics: OSMObjectSpecifics::Node { lon7, lat7 },
                },
            )
        },
        OSMObjectType::Way => {
            let (nc, j1) = match e_parse_u64(s, i7) {
                Some(p) => p,
                None => {
                    return None;
                },
            };
            if !(nc <= usize::MAX as u64 && j1 < s.len() && s[j1] == ';') {
                return None;
            }
            let (nodes, j2) = match e_parse_node_list(s, j1 + 1, nc as usize) {
                Some(p) => p,
                None => {
                    return None;
                },
            };
            if j2 != s.len() {
                return None;
            }
            Some(
                OSMObject {
                    id,
                    timestamp: ts,
                    version: ver,
                    changeset: cs,
                    tags,
                    specifics: OSMObjectSpecifics::Way { nodes },
                },
            )
        },
        OSMObjectType::Relation => {
            let (mc, j1) = match e_parse_u64(s, i7) {
                Some(p) => p,
                None => {
                    return None;
                },
            };
            if !(mc <= usize::MAX as u64 && j1 < s.len() && s[j1] == ';') {
                return None;
            }
            let (members, j2) = match e_parse_member_list(s, j1 + 1, mc as usize) {
                Some(p) => p,
                None => {
                    return None;
                },
            };
            if j2 != s.len() {
                return None;
            }
            Some(
                OSMObject {
                    id,
                    timestamp: ts,
                    version: ver,
                    changeset: cs,
                    tags,
                    specifics: OSMObjectSpecifics::Relation { members },
                },
            )
        },
    }
}

/// Decode a cache payload held as a `String`.
pub fn decode_object_str(s: &str) -> (r: Option<OSMObject>)
    ensures
        match r {
            Some(o) => spec_decode(s@) == Some(o@),
            None => spec_decode(s@) is None,
        },
{
    let chars = str_to_chars(s);
    decode_object(&chars)
}

} // verus!
