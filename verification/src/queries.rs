//! Construction of Overpass QL query strings: the area retrieval
//! template, the differential template, and the batched id lookups of
//! the dependency resolver.

use vstd::prelude::*;
use crate::numbers::dec_digits;

verus! {

/// Ids in one batched lookup statement; Overpass accepts very large id
/// lists, so a batch bound this size means a single statement in
/// practice.
pub const MAX_SIMULTANEOUSLY_QUERYED: usize = 1000000;

/// The wrapper every query is sent in: JSON output, a timeout, the
/// query itself, and meta attributes for each object.
pub open spec fn spec_format_query(timeout: nat, query: Seq<char>) -> Seq<char> {
    "[out:json][timeout:"@ + dec_digits(timeout) + "];"@ + query + ";out meta;"@
}

pub fn format_query(timeout: u32, query: &str) -> (r: String)
    ensures
        r@ == spec_format_query(timeout as nat, query@),
{
    let mut s = ("[out:json][timeout:").to_owned();
    s.append(crate::numbers::u64_to_string(timeout as u64).as_str());
    s.append("];");
    s.append(query);
    s.append(";out meta;");
    s
}

/// The area retrieval template: the union of the area's nodes, ways and
/// relations, recursing twice into every referenced object.
pub open spec fn spec_format_data_retrieval(area: Seq<char>) -> Seq<char> {
    "((area[\"name\"=\""@ + area + "\"];node(area);area[\"name\"=\""@ + area
        + "\"];way(area);area[\"name\"=\""@ + area + "\"];rel(area);>>;);>>;)"@
}

pub fn format_data_retrieval(area: &str) -> (r: String)
    ensures
        r@ == spec_format_data_retrieval(area@),
{
    let mut s = ("((area[\"name\"=\"").to_owned();
    s.append(area);
    s.append("\"];node(area);area[\"name\"=\"");
    s.append(area);
    s.append("\"];way(area);area[\"name\"=\"");
    s.append(area);
    s.append("\"];rel(area);>>;);>>;)");
    s
}

/// The differential template for one object kind: XML output, augmented
/// diff since `after`, the area's objects of that kind with recursion.
pub open spec fn spec_format_differential_query(
    area: Seq<char>,
    kind: Seq<char>,
    after: Seq<char>,
) -> Seq<char> {
    "[out:xml][timeout:900][adiff:\""@ + after + "\"];((area[\"name\"=\""@ + area + "\"];"@ + kind
        + "(area);>>;);>>;);out meta;"@
}

/// One differential query, `after` being an ISO-8601 instant.
pub fn format_differential_query(area: &str, kind: &str, after: &str) -> (r: String)
    ensures
        r@ == spec_format_differential_query(area@, kind@, after@),
{
    let mut s = ("[out:xml][timeout:900][adiff:\"").to_owned();
    s.append(after);
    s.append("\"];((area[\"name\"=\"");
    s.append(area);
    s.append("\"];");
    s.append(kind);
    s.append("(area);>>;);>>;);out meta;");
    s
}

/// The query statement keyword for a one-letter kind shortcut.
pub open spec fn spec_translate_type_shortcut(shortcut: char) -> Seq<char> {
    if shortcut == 'n' {
        "node"@
    } else if shortcut == 'w' {
        "way"@
    } else {
        "relation"@
    }
}

/// The statement keyword for a kind shortcut letter (`n`, `w` or `r`).
pub fn translate_type_shortcut(shortcut: char) -> (r: &'static str)
    requires
        shortcut == 'n' || shortcut == 'w' || shortcut == 'r',
    ensures
        r@ == spec_translate_type_shortcut(shortcut),
{
    if shortcut == 'n' {
        "node"
    } else if shortcut == 'w' {
        "way"
    } else {
        "relation"
    }
}

/// The numeric parts of the canonical ids that carry the given kind
/// letter, in order.
pub open spec fn ids_of_kind(ids: Seq<Seq<char>>, letter: char) -> Seq<Seq<char>>
    decreases ids.len(),
{
    if ids.len() == 0 {
        Seq::empty()
    } else {
        let head: Seq<Seq<char>> = if ids[0].len() > 0 && ids[0][0] == letter {
            seq![ids[0].drop_first()]
        } else {
            Seq::empty()
        };
        head + ids_of_kind(ids.drop_first(), letter)
    }
}

/// Parts joined by commas.
pub open spec fn join_commas(parts: Seq<Seq<char>>) -> Seq<char>
    decreases parts.len(),
{
    if parts.len() == 0 {
        Seq::empty()
    } else if parts.len() == 1 {
        parts[0]
    } else {
        parts[0] + seq![','] + join_commas(parts.drop_first())
    }
}

/// A sequence cut into chunks of at most `k` elements.
pub open spec fn chunks_of(s: Seq<Seq<char>>, k: nat) -> Seq<Seq<Seq<char>>>
    decreases s.len(),
{
    if s.len() == 0 {
        Seq::empty()
    } else if s.len() <= k {
        seq![s]
    } else if k == 0 {
        Seq::empty()
    } else {
        seq![s.take(k as int)] + chunks_of(s.skip(k as int), k)
    }
}

/// The lookup statement for one chunk of numeric ids of one kind.
pub open spec fn chunk_query(kind: Seq<char>, chunk: Seq<Seq<char>>) -> Seq<char> {
    spec_format_query(900, kind + "(id:"@ + join_commas(chunk) + ")"@)
}

/// All lookup queries for the ids of one kind letter.
pub open spec fn kind_queries(ids: Seq<Seq<char>>, letter: char) -> Seq<Seq<char>> {
    chunks_of(ids_of_kind(ids, letter), MAX_SIMULTANEOUSLY_QUERYED as nat).map_values(
        |c: Seq<Seq<char>>| chunk_query(spec_translate_type_shortcut(letter), c),
    )
}

/// The queries a batched lookup of the given canonical ids issues:
/// the ids grouped by kind letter, nodes first, then ways, then
/// relations, each group cut into batches.
pub open spec fn spec_queries_for_ids(ids: Seq<Seq<char>>) -> Seq<Seq<char>> {
    kind_queries(ids, 'n') + kind_queries(ids, 'w') + kind_queries(ids, 'r')
}

/// Split canonical ids into numeric parts per kind letter.
fn split_ids_by_kind(ids: &Vec<String>) -> (r: (Vec<String>, Vec<String>, Vec<String>))
    ensures
        r.0@.map_values(|s: String| s@) == ids_of_kind(ids@.map_values(|s: String| s@), 'n'),
        r.1@.map_values(|s: String| s@) == ids_of_kind(ids@.map_values(|s: String| s@), 'w'),
        r.2@.map_values(|s: String| s@) == ids_of_kind(ids@.map_values(|s: String| s@), 'r'),
{
    let ghost all = ids@.map_values(|s: String| s@);
    let mut nodes: Vec<String> = Vec::new();
    let mut ways: Vec<String> = Vec::new();
    let mut rels: Vec<String> = Vec::new();
    let mut i: usize = 0;
    proof {
        assert(all.skip(0) =~= all);
    }
    while i < ids.len()
        invariant
            0 <= i <= ids.len(),
            all == ids@.map_values(|s: String| s@),
            nodes@.map_values(|s: String| s@) + ids_of_kind(all.skip(i as int), 'n')
                =~= ids_of_kind(all, 'n'),
            ways@.map_values(|s: String| s@) + ids_of_kind(all.skip(i as int), 'w')
                =~= ids_of_kind(all, 'w'),
            rels@.map_values(|s: String| s@) + ids_of_kind(all.skip(i as int), 'r')
                =~= ids_of_kind(all, 'r'),
        decreases ids.len() - i,
    {
        proof {
            assert(all.skip(i as int)[0] == all[i as int]);
            assert(all.skip(i as int).drop_first() =~= all.skip(i + 1));
        }
        let id = &ids[i];
        let n = id.as_str().unicode_len();
        if n > 0 {
            let c = id.as_str().get_char(0);
            let rest = id.as_str().substring_char(1, n).to_owned();
            proof {
                assert(rest@ =~= all[i as int].drop_first());
            }
            if c == 'n' {
                nodes.push(rest);
            } else if c == 'w' {
                ways.push(rest);
            } else if c == 'r' {
                rels.push(rest);
            }
        }
        i += 1;
        proof {
            assert(nodes@.map_values(|s: String| s@) + ids_of_kind(all.skip(i as int), 'n')
                =~= ids_of_kind(all, 'n'));
            assert(ways@.map_values(|s: String| s@) + ids_of_kind(all.skip(i as int), 'w')
                =~= ids_of_kind(all, 'w'));
            assert(rels@.map_values(|s: String| s@) + ids_of_kind(all.skip(i as int), 'r')
                =~= ids_of_kind(all, 'r'));
        }
    }
    proof {
        assert(ids_of_kind(all.skip(i as int), 'n') =~= Seq::<Seq<char>>::empty());
        assert(ids_of_kind(all.skip(i as int), 'w') =~= Seq::<Seq<char>>::empty());
        assert(ids_of_kind(all.skip(i as int), 'r') =~= Seq::<Seq<char>>::empty());
        assert(nodes@.map_values(|s: String| s@) =~= ids_of_kind(all, 'n'));
        assert(ways@.map_values(|s: String| s@) =~= ids_of_kind(all, 'w'));
        assert(rels@.map_values(|s: String| s@) =~= ids_of_kind(all, 'r'));
    }
    (nodes, ways, rels)
}

/// The batched queries for the numeric ids of one kind.
fn queries_for_kind(kind: &str, parts: &Vec<String>) -> (r: Vec<String>)
    ensures
        r@.map_values(|s: String| s@) == chunks_of(
            parts@.map_values(|s: String| s@),
            MAX_SIMULTANEOUSLY_QUERYED as nat,
        ).map_values(|c: Seq<Seq<char>>| chunk_query(kind@, c)),
{
    let ghost all = parts@.map_values(|s: String| s@);
    let mut out: Vec<String> = Vec::new();
    let mut i: usize = 0;
    proof {
        assert(all.skip(0) =~= all);
    }
    while i < parts.len()
        invariant
            0 <= i <= parts.len(),
            all == parts@.map_values(|s: String| s@),
            out@.map_values(|s: String| s@) + chunks_of(
                all.skip(i as int),
                MAX_SIMULTANEOUSLY_QUERYED as nat,
            ).map_values(|c: Seq<Seq<char>>| chunk_query(kind@, c)) =~= chunks_of(
                all,
                MAX_SIMULTANEOUSLY_QUERYED as nat,
            ).map_values(|c: Seq<Seq<char>>| chunk_query(kind@, c)),
        decreases parts.len() - i,
    {
        let remaining = parts.len() - i;
        let take = if remaining < MAX_SIMULTANEOUSLY_QUERYED {
            remaining
        } else {
            MAX_SIMULTANEOUSLY_QUERYED
        };
        let ghost chunk = if all.skip(i as int).len() <= MAX_SIMULTANEOUSLY_QUERYED as nat {
            all.skip(i as int)
        } else {
            all.skip(i as int).take(MAX_SIMULTANEOUSLY_QUERYED as int)
        };
        proof {
            if all.skip(i as int).len() <= MAX_SIMULTANEOUSLY_QUERYED as nat {
                assert(chunk =~= all.subrange(i as int, i + take as int));
            } else {
                assert(chunk =~= all.subrange(i as int, i + take as int));
            }
            assert(chunk.skip(0) =~= chunk);
        }
        // Join this chunk's ids with commas.
        let mut joined = String::new();
        let mut j: usize = 0;
        while j < take
            invariant
                0 <= j <= take,
                i + take <= parts.len(),
                all == parts@.map_values(|s: String| s@),
                chunk =~= all.subrange(i as int, i + take as int),
                joined@ + join_commas(chunk.skip(j as int)) =~= join_commas(chunk) || (j == take
                    && joined@ =~= join_commas(chunk)),
            decreases take - j,
        {
            proof {
                assert(chunk.skip(j as int)[0] == chunk[j as int]);
                assert(chunk[j as int] == all[i + j]);
                assert(chunk.skip(j as int).drop_first() =~= chunk.skip(j + 1));
                reveal_strlit(",");
            }
            joined.append(parts[i + j].as_str());
            if j + 1 < take {
                joined.append(",");
                proof {
                    assert(","@ =~= seq![',']);
                }
            }
            j += 1;
            proof {
                if j < take {
                    assert(joined@ + join_commas(chunk.skip(j as int)) =~= join_commas(chunk));
                } else {
                    assert(chunk.skip(j as int) =~= Seq::<Seq<char>>::empty());
                    assert(joined@ =~= join_commas(chunk));
                }
            }
        }
        proof {
            if take == 0 {
                assert(chunk.skip(0) =~= chunk);
            }
        }
        let mut body = kind.to_owned();
        body.append("(id:");
        body.append(joined.as_str());
        body.append(")");
        let q = format_query(900, body.as_str());
        proof {
            assert(q@ =~= chunk_query(kind@, chunk));
        }
        out.push(q);
        let ghost old_i = i as int;
        i += take;
        proof {
            let m = MAX_SIMULTANEOUSLY_QUERYED as nat;
            if all.skip(old_i).len() <= m {
                assert(i == parts.len());
                assert(chunks_of(all.skip(old_i), m) =~= seq![all.skip(old_i)]);
                assert(chunk =~= all.skip(old_i));
                assert(chunks_of(all.skip(i as int), m) =~= Seq::<Seq<Seq<char>>>::empty());
            } else {
                assert(chunks_of(all.skip(old_i), m) =~= seq![all.skip(old_i).take(m as int)]
                    + chunks_of(all.skip(old_i).skip(m as int), m));
                assert(all.skip(old_i).skip(m as int) =~= all.skip(i as int));
                assert(chunk =~= all.skip(old_i).take(m as int));
            }
            assert(out@.map_values(|s: String| s@) + chunks_of(all.skip(i as int), m).map_values(
                |c: Seq<Seq<char>>| chunk_query(kind@, c),
            ) =~= chunks_of(all, m).map_values(|c: Seq<Seq<char>>| chunk_query(kind@, c)));
        }
    }
    proof {
        assert(chunks_of(all.skip(i as int), MAX_SIMULTANEOUSLY_QUERYED as nat)
            =~= Seq::<Seq<Seq<char>>>::empty());
        assert(out@.map_values(|s: String| s@) =~= chunks_of(
            all,
            MAX_SIMULTANEOUSLY_QUERYED as nat,
        ).map_values(|c: Seq<Seq<char>>| chunk_query(kind@, c)));
    }
    out
}

/// The batched lookup queries for a list of canonical ids: grouped by
/// kind letter, nodes first, then ways, then relations, each group cut
/// into batches of at most `MAX_SIMULTANEOUSLY_QUERYED` ids.
pub fn queries_for_ids(ids: &Vec<String>) -> (r: Vec<String>)
    ensures
        r@.map_values(|s: String| s@) == spec_queries_for_ids(ids@.map_values(|s: String| s@)),
{
    let (nodes, ways, rels) = split_ids_by_kind(ids);
    let mut out = queries_for_kind(translate_type_shortcut('n'), &nodes);
    let qw = queries_for_kind(translate_type_shortcut('w'), &ways);
    let qr = queries_for_kind(translate_type_shortcut('r'), &rels);
    let ghost all = ids@.map_values(|s: String| s@);
    proof {
        lemma_map_chunk_queries(out@, all, 'n');
        lemma_map_chunk_queries(qw@, all, 'w');
        lemma_map_chunk_queries(qr@, all, 'r');
        assert(kind_queries(all, 'w').take(0) =~= Seq::<Seq<char>>::empty());
        assert(out@.map_values(|s: String| s@) + kind_queries(all, 'w').take(0) =~= kind_queries(
            all,
            'n',
        ));
    }
    let mut k: usize = 0;
    while k < qw.len()
        invariant
            0 <= k <= qw.len(),
            out@.map_values(|s: String| s@) =~= kind_queries(all, 'n') + kind_queries(
                all,
                'w',
            ).take(k as int),
            qw@.map_values(|s: String| s@) == kind_queries(all, 'w'),
        decreases qw.len() - k,
    {
        let q = qw[k].clone();
        let ghost prev = out@;
        out.push(q);
        proof {
            assert(out@.map_values(|s: String| s@) =~= prev.map_values(|s: String| s@) + seq![
                kind_queries(all, 'w')[k as int],
            ]);
            assert(out@.map_values(|s: String| s@) =~= kind_queries(all, 'n') + kind_queries(
                all,
                'w',
            ).take(k + 1));
        }
        k += 1;
    }
    proof {
        assert(kind_queries(all, 'w').take(qw@.len() as int) =~= kind_queries(all, 'w'));
        assert(kind_queries(all, 'r').take(0) =~= Seq::<Seq<char>>::empty());
    }
    let mut k2: usize = 0;
    while k2 < qr.len()
        invariant
            0 <= k2 <= qr.len(),
            out@.map_values(|s: String| s@) =~= kind_queries(all, 'n') + kind_queries(all, 'w')
                + kind_queries(all, 'r').take(k2 as int),
            qr@.map_values(|s: String| s@) == kind_queries(all, 'r'),
        decreases qr.len() - k2,
    {
        let q = qr[k2].clone();
        let ghost prev = out@;
        out.push(q);
        proof {
            assert(out@.map_values(|s: String| s@) =~= prev.map_values(|s: String| s@) + seq![
                kind_queries(all, 'r')[k2 as int],
            ]);
            assert(out@.map_values(|s: String| s@) =~= kind_queries(all, 'n') + kind_queries(
                all,
                'w',
            ) + kind_queries(all, 'r').take(k2 + 1));
        }
        k2 += 1;
    }
    proof {
        assert(kind_queries(all, 'r').take(qr@.len() as int) =~= kind_queries(all, 'r'));
        assert(out@.map_values(|s: String| s@) =~= spec_queries_for_ids(all));
    }
    out
}

/// The result of `queries_for_kind` on the ids of one kind letter is
/// exactly that letter's `kind_queries`.
proof fn lemma_map_chunk_queries(vs: Seq<String>, all: Seq<Seq<char>>, letter: char)
    requires
        letter == 'n' || letter == 'w' || letter == 'r',
        vs.map_values(|s: String| s@) == chunks_of(
            ids_of_kind(all, letter),
            MAX_SIMULTANEOUSLY_QUERYED as nat,
        ).map_values(|c: Seq<Seq<char>>| chunk_query(spec_translate_type_shortcut(letter), c)),
    ensures
        vs.map_values(|s: String| s@) == kind_queries(all, letter),
{
    assert(vs.map_values(|s: String| s@) =~= kind_queries(all, letter));
}


/// The three differential queries of an area, one per object kind, in
/// the order the engine issues them: nodes, then ways, then relations.
pub fn differential_queries(area: &str, after: &str) -> (r: Vec<String>)
    ensures
        r@.len() == 3,
        r@[0]@ == spec_format_differential_query(area@, "node"@, after@),
        r@[1]@ == spec_format_differential_query(area@, "way"@, after@),
        r@[2]@ == spec_format_differential_query(area@, "rel"@, after@),
{
    let mut out: Vec<String> = Vec::new();
    out.push(format_differential_query(area, "node", after));
    out.push(format_differential_query(area, "way", after));
    out.push(format_differential_query(area, "rel", after));
    out
}


/// The URL a query is sent to: the endpoint's interpreter entry point
/// with the query as the `data` parameter (the caller has already
/// composed the query URL-safely).
pub open spec fn spec_interpreter_url(endpoint: Seq<char>, query: Seq<char>) -> Seq<char> {
    endpoint + "/interpreter?data="@ + query
}

pub fn interpreter_url(endpoint: &str, query: &str) -> (r: String)
    ensures
        r@ == spec_interpreter_url(endpoint@, query@),
{
    let mut s = endpoint.to_owned();
    s.append("/interpreter?data=");
    s.append(query);
    s
}

/// The side channel asking a throttling endpoint to drop our queries.
pub open spec fn spec_kill_queries_url(endpoint: Seq<char>) -> Seq<char> {
    endpoint + "/kill_my_queries"@
}

pub fn kill_queries_url(endpoint: &str) -> (r: String)
    ensures
        r@ == spec_kill_queries_url(endpoint@),
{
    let mut s = endpoint.to_owned();
    s.append("/kill_my_queries");
    s
}

} // verus!
