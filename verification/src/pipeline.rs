//! The decisions of a run: which links become nodes, which nodes are kept
//! for a provider, how many are kept, and which local port each throughput
//! test uses.
use vstd::prelude::*;

use crate::cidr::{first_match, IpAddress, ProviderDb};
use crate::params::{insert_sorted, key_sorted, lemma_insert_at};
use crate::text::{chars_eq, chars_lt, chars_of, seq_lt, strings_view};
use crate::vless::{spec_dedup_key, spec_is_xhttp, spec_parse, NodeView, ParseError, VlessNode};

verus! {

/// XHTTP nodes of the links, keyed by `dedup_key`; a later link with the
/// same key replaces an earlier one, as `BTreeMap::insert` does.
pub open spec fn xhttp_nodes(links: Seq<Seq<char>>) -> Seq<(Seq<char>, NodeView)>
    decreases links.len(),
{
    if links.len() == 0 {
        Seq::empty()
    } else {
        let acc = xhttp_nodes(links.drop_last());
        match spec_parse(links.last()) {
            Ok(n) => if spec_is_xhttp(n.params) {
                insert_sorted(acc, spec_dedup_key(n), n)
            } else {
                acc
            },
            Err(_) => acc,
        }
    }
}

/// Abstract values of nodes.
pub open spec fn nodes_view(v: Seq<VlessNode>) -> Seq<NodeView> {
    v.map_values(|n: VlessNode| n@)
}

/// Values of keyed entries, in order.
pub open spec fn entry_values(s: Seq<(Seq<char>, NodeView)>) -> Seq<NodeView> {
    s.map_values(|e: (Seq<char>, NodeView)| e.1)
}

proof fn lemma_xhttp_nodes_sorted(links: Seq<Seq<char>>)
    ensures
        key_sorted(xhttp_nodes(links)),
    decreases links.len(),
{
    if links.len() > 0 {
        lemma_xhttp_nodes_sorted(links.drop_last());
        match spec_parse(links.last()) {
            Ok(n) => {
                if spec_is_xhttp(n.params) {
                    crate::params::lemma_insert_sorted_sorted(
                        xhttp_nodes(links.drop_last()),
                        spec_dedup_key(n),
                        n,
                    );
                }
            },
            Err(_) => {},
        }
    }
}

/// Every keyed entry is an XHTTP node parsed from one of the links, under
/// its own dedup key, and every XHTTP link has an entry with its key.
pub open spec fn selection_wf(s: Seq<(Seq<char>, NodeView)>, links: Seq<Seq<char>>) -> bool {
    &&& key_sorted(s)
    &&& forall|e: (Seq<char>, NodeView)| #[trigger]
        s.contains(e) ==> e.0 == spec_dedup_key(e.1) && spec_is_xhttp(e.1.params) && exists|
            l: Seq<char>,
        | #[trigger] links.contains(l) && spec_parse(l) == Ok::<NodeView, ParseError>(e.1)
    &&& forall|l: Seq<char>| #[trigger]
        links.contains(l) && spec_parse(l) is Ok && spec_is_xhttp(spec_parse(l)->Ok_0.params)
            ==> exists|e: (Seq<char>, NodeView)| #[trigger]
            s.contains(e) && e.0 == spec_dedup_key(spec_parse(l)->Ok_0)
}

proof fn lemma_selection_wf(links: Seq<Seq<char>>)
    ensures
        selection_wf(xhttp_nodes(links), links),
    decreases links.len(),
{
    if links.len() > 0 {
        let init = links.drop_last();
        let l = links.last();
        lemma_selection_wf(init);
        lemma_xhttp_nodes_sorted(links);
        let acc = xhttp_nodes(init);
        let s = xhttp_nodes(links);
        assert(links.contains(l));
        assert forall|x: Seq<char>| init.contains(x) implies #[trigger] links.contains(x) by {
            let a = choose|a: int| 0 <= a < init.len() && init[a] == x;
            assert(links[a] == x);
        }
        assert forall|x: Seq<char>| #[trigger] links.contains(x) && x != l implies init.contains(x) by {
            let a = choose|a: int| 0 <= a < links.len() && links[a] == x;
            assert(a != links.len() - 1);
            assert(init[a] == x);
        }
        match spec_parse(l) {
            Ok(n) => {
                if spec_is_xhttp(n.params) {
                    let k = spec_dedup_key(n);
                    crate::params::lemma_insert_sorted_members(acc, k, n);
                    assert forall|e: (Seq<char>, NodeView)| #[trigger] s.contains(e) implies e.0
                        == spec_dedup_key(e.1) && spec_is_xhttp(e.1.params) && exists|
                        x: Seq<char>,
                    | #[trigger] links.contains(x) && spec_parse(x) == Ok::<NodeView, ParseError>(
                        e.1,
                    ) by {
                        if e != (k, n) {
                            assert(acc.contains(e));
                            let x = choose|x: Seq<char>| #[trigger]
                                init.contains(x) && spec_parse(x) == Ok::<NodeView, ParseError>(
                                    e.1,
                                );
                            assert(links.contains(x));
                        }
                    }
                    assert forall|x: Seq<char>| #[trigger]
                        links.contains(x) && spec_parse(x) is Ok && spec_is_xhttp(
                            spec_parse(x)->Ok_0.params,
                        ) implies exists|e: (Seq<char>, NodeView)| #[trigger]
                        s.contains(e) && e.0 == spec_dedup_key(spec_parse(x)->Ok_0) by {
                        if x == l {
                            assert(s.contains((k, n)));
                        } else {
                            assert(init.contains(x));
                            let e = choose|e: (Seq<char>, NodeView)| #[trigger]
                                acc.contains(e) && e.0 == spec_dedup_key(spec_parse(x)->Ok_0);
                            if e.0 == k {
                                assert(s.contains((k, n)));
                            } else {
                                assert(s.contains(e));
                            }
                        }
                    }
                } else {
                    assert forall|e: (Seq<char>, NodeView)| #[trigger] s.contains(e) implies e.0
                        == spec_dedup_key(e.1) && spec_is_xhttp(e.1.params) && exists|
                        x: Seq<char>,
                    | #[trigger] links.contains(x) && spec_parse(x) == Ok::<NodeView, ParseError>(
                        e.1,
                    ) by {
                        let x = choose|x: Seq<char>| #[trigger]
                            init.contains(x) && spec_parse(x) == Ok::<NodeView, ParseError>(e.1);
                        assert(links.contains(x));
                    }
                    assert forall|x: Seq<char>| #[trigger]
                        links.contains(x) && spec_parse(x) is Ok && spec_is_xhttp(
                            spec_parse(x)->Ok_0.params,
                        ) implies exists|e: (Seq<char>, NodeView)| #[trigger]
                        s.contains(e) && e.0 == spec_dedup_key(spec_parse(x)->Ok_0) by {
                        assert(init.contains(x));
                    }
                }
            },
            Err(_) => {
                assert forall|e: (Seq<char>, NodeView)| #[trigger] s.contains(e) implies e.0
                    == spec_dedup_key(e.1) && spec_is_xhttp(e.1.params) && exists|x: Seq<char>|
                    #[trigger] links.contains(x) && spec_parse(x) == Ok::<NodeView, ParseError>(
                        e.1,
                    ) by {
                    let x = choose|x: Seq<char>| #[trigger]
                        init.contains(x) && spec_parse(x) == Ok::<NodeView, ParseError>(e.1);
                    assert(links.contains(x));
                }
                assert forall|x: Seq<char>| #[trigger]
                    links.contains(x) && spec_parse(x) is Ok && spec_is_xhttp(
                        spec_parse(x)->Ok_0.params,
                    ) implies exists|e: (Seq<char>, NodeView)| #[trigger]
                    s.contains(e) && e.0 == spec_dedup_key(spec_parse(x)->Ok_0) by {
                    assert(init.contains(x));
                }
            },
        }
    }
}

/// What the selection keeps: each selected node is XHTTP and is what one of
/// the links parses to; no two selected nodes share a dedup key; and every
/// link that parses to an XHTTP node has a selected node with its key.
pub proof fn lemma_xhttp_selection(links: Seq<Seq<char>>)
    ensures
        ({
            let v = entry_values(xhttp_nodes(links));
            &&& forall|i: int|
                0 <= i < v.len() ==> spec_is_xhttp((#[trigger] v[i]).params) && exists|
                    l: Seq<char>,
                | #[trigger] links.contains(l) && spec_parse(l) == Ok::<NodeView, ParseError>(v[i])
            &&& forall|i: int, j: int|
                0 <= i < j < v.len() ==> spec_dedup_key(#[trigger] v[i]) != spec_dedup_key(
                    #[trigger] v[j],
                )
            &&& forall|l: Seq<char>| #[trigger]
                links.contains(l) && spec_parse(l) is Ok && spec_is_xhttp(
                    spec_parse(l)->Ok_0.params,
                ) ==> exists|i: int|
                    0 <= i < v.len() && #[trigger] spec_dedup_key(v[i]) == spec_dedup_key(
                        spec_parse(l)->Ok_0,
                    )
        }),
{
    lemma_selection_wf(links);
    let s = xhttp_nodes(links);
    let v = entry_values(s);
    assert forall|i: int| 0 <= i < v.len() implies spec_is_xhttp((#[trigger] v[i]).params) && exists|
        l: Seq<char>,
    | #[trigger] links.contains(l) && spec_parse(l) == Ok::<NodeView, ParseError>(v[i]) by {
        assert(s.contains(s[i]));
    }
    assert forall|i: int, j: int| 0 <= i < j < v.len() implies spec_dedup_key(#[trigger] v[i])
        != spec_dedup_key(#[trigger] v[j]) by {
        assert(s.contains(s[i]));
        assert(s.contains(s[j]));
        assert(seq_lt(s[i].0, s[j].0));
        crate::text::lemma_seq_lt_irreflexive(s[i].0);
    }
    assert forall|l: Seq<char>| #[trigger]
        links.contains(l) && spec_parse(l) is Ok && spec_is_xhttp(spec_parse(l)->Ok_0.params)
            implies exists|i: int|
        0 <= i < v.len() && #[trigger] spec_dedup_key(v[i]) == spec_dedup_key(spec_parse(l)->Ok_0) by {
        let e = choose|e: (Seq<char>, NodeView)| #[trigger]
            s.contains(e) && e.0 == spec_dedup_key(spec_parse(l)->Ok_0);
        let i = choose|i: int| 0 <= i < s.len() && s[i] == e;
        assert(v[i] == e.1);
    }
}

/// Parse the links, keep the XHTTP nodes and de-duplicate them by
/// `dedup_key`, in key order.
pub fn select_xhttp_nodes(links: &[String]) -> (r: Vec<VlessNode>)
    ensures
        nodes_view(r@) == entry_values(xhttp_nodes(strings_view(links@))),
{
    let ghost ls = strings_view(links@);
    let mut keyed: Vec<(Vec<char>, VlessNode)> = Vec::new();
    let mut i: usize = 0;
    assert(keyed@.map_values(|e: (Vec<char>, VlessNode)| (e.0@, e.1@)) =~= xhttp_nodes(ls.take(0)));
    while i < links.len()
        invariant
            0 <= i <= links@.len(),
            ls == strings_view(links@),
            keyed@.map_values(|e: (Vec<char>, VlessNode)| (e.0@, e.1@)) == xhttp_nodes(
                ls.take(i as int),
            ),
        decreases links.len() - i,
    {
        let ghost acc = keyed@.map_values(|e: (Vec<char>, VlessNode)| (e.0@, e.1@));
        proof {
            lemma_xhttp_nodes_sorted(ls.take(i as int));
            assert(ls.take(i + 1).drop_last() =~= ls.take(i as int));
            assert(ls.take(i + 1).last() == links@[i as int]@);
        }
        match VlessNode::parse(links[i].as_str()) {
            Ok(node) => {
                if node.is_xhttp() {
                    let key = chars_of(node.dedup_key().as_str());
                    let mut j: usize = 0;
                    while j < keyed.len() && chars_lt(&keyed[j].0, &key)
                        invariant
                            0 <= j <= keyed@.len(),
                            acc == keyed@.map_values(|e: (Vec<char>, VlessNode)| (e.0@, e.1@)),
                            acc.len() == keyed@.len(),
                            forall|m: int| 0 <= m < j ==> seq_lt(#[trigger] acc[m].0, key@),
                        decreases keyed.len() - j,
                    {
                        j = j + 1;
                    }
                    let same = j < keyed.len() && chars_eq(&keyed[j].0, &key);
                    proof {
                        lemma_insert_at(acc, key@, node@, j as int);
                    }
                    let ghost nv = node@;
                    if same {
                        keyed.set(j, (key, node));
                        assert(keyed@.map_values(|e: (Vec<char>, VlessNode)| (e.0@, e.1@))
                            =~= acc.update(j as int, (spec_dedup_key(nv), nv)));
                    } else {
                        keyed.insert(j, (key, node));
                        assert(keyed@.map_values(|e: (Vec<char>, VlessNode)| (e.0@, e.1@))
                            =~= acc.insert(j as int, (spec_dedup_key(nv), nv)));
                    }
                }
            },
            Err(_) => {},
        }
        i = i + 1;
    }
    assert(ls.take(links@.len() as int) =~= ls);
    let ghost final_keyed = keyed@;
    let mut out: Vec<VlessNode> = Vec::new();
    let mut k: usize = 0;
    while k < keyed.len()
        invariant
            0 <= k <= keyed@.len(),
            keyed@ == final_keyed,
            out@.len() == k,
            forall|m: int| 0 <= m < k ==> (#[trigger] out@[m])@ == keyed@[m].1@,
        decreases keyed.len() - k,
    {
        out.push(keyed[k].1.duplicate());
        k = k + 1;
    }
    assert(nodes_view(out@) =~= entry_values(
        keyed@.map_values(|e: (Vec<char>, VlessNode)| (e.0@, e.1@)),
    ));
    out
}

/// The provider a node at `ip` is kept for: the first provider whose
/// ranges contain it; `other` when the filter is off and none does; none
/// (the node is dropped) otherwise.
pub open spec fn spec_classify(db: Seq<(Seq<char>, Seq<crate::cidr::Network>)>, ip: IpAddress, no_filter: bool) -> Option<Seq<char>> {
    match first_match(db, ip) {
        Some(p) => Some(p),
        None => if no_filter {
            Some("other"@)
        } else {
            None
        },
    }
}

/// The provider a node at `ip` is kept for, or `None` when it is dropped.
pub fn classify_provider(db: &ProviderDb, ip: IpAddress, no_filter: bool) -> (r: Option<String>)
    ensures
        crate::output::opt_view(r) == spec_classify(db@, ip, no_filter),
{
    match db.match_ip(ip) {
        Some(p) => Some(p.to_owned()),
        None => if no_filter {
            Some("other".to_owned())
        } else {
            None
        },
    }
}

/// Local SOCKS port of the `i`-th throughput test: `21080 + (i as u16 % 4000)`.
pub fn socks_port_for(i: usize) -> (r: u16)
    ensures
        r == socks_port(i as nat),
{
    let low = (i % 65536) as u16;
    21080 + low % 4000
}

/// Local SOCKS port of the `i`-th throughput test: `21080 + (i as u16 % 4000)`.
pub open spec fn socks_port(i: nat) -> nat {
    21080 + (i % 65536) % 4000
}

/// The throughput-test ports lie in 21080..25080; the first 4000 tests get
/// distinct consecutive ports, and test `i + 4000` reuses the port of test
/// `i` (for `i + 4000` below 65536).
pub proof fn lemma_socks_ports(i: nat)
    ensures
        21080 <= socks_port(i) < 25080,
        i < 4000 ==> socks_port(i) == 21080 + i,
        i + 4000 < 65536 ==> socks_port(i + 4000) == socks_port(i),
{
}

/// Keeps at most `max_nodes` items (all when `max_nodes` is 0).
pub fn cap_nodes<T>(items: &mut Vec<T>, max_nodes: usize)
    ensures
        final(items)@ == if max_nodes > 0 && old(items)@.len() > max_nodes {
            old(items)@.take(max_nodes as int)
        } else {
            old(items)@
        },
{
    if max_nodes > 0 && items.len() > max_nodes {
        items.truncate(max_nodes);
    }
}

} // verus!
