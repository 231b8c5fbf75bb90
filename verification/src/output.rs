//! Rendering the filtered/tested nodes into Hiddify-ready artifacts.
use vstd::prelude::*;
use vstd::utf8::encode_utf8;

use base64::Engine;

use crate::params::{insert_sorted, key_sorted, lemma_insert_at, lookup};
use crate::roundtrip::{lemma_link_shape, ws_free};
use crate::text::{
    chars_eq, chars_lt, chars_of, decimal, digits_value, extend_chars, is_digit, is_ws,
    lemma_decimal_digits, lemma_decimal_leading, lemma_decimal_short, push_decimal, push_decimal_padded, seq_lt,
    starts_with, string_of, strings_view, zero_pad,
};
use crate::vless::{scheme, spec_link, spec_parse, NodeView, ParseError, VlessNode};

verus! {

/// Short display name of a provider: the known ones get their brand
/// spelling, any other name is shown as it is.
pub open spec fn label_of(p: Seq<char>) -> Seq<char> {
    if p == "vk"@ {
        "VK"@
    } else if p == "yandex"@ {
        "YA"@
    } else if p == "mts"@ {
        "MTS"@
    } else if p == "beeline"@ {
        "Beeline"@
    } else if p == "megafon"@ {
        "MegaFon"@
    } else if p == "rostelecom"@ {
        "Rostelecom"@
    } else if p == "tele2"@ {
        "Tele2"@
    } else if p == "ertelecom"@ {
        "ER-Telecom"@
    } else if p == "ttk"@ {
        "TTK"@
    } else {
        p
    }
}

/// Whether `s` is the text of the literal `lit`.
fn is_text(s: &[char], lit: &str) -> (r: bool)
    ensures
        r == (s@ == lit@),
{
    chars_eq(s, &chars_of(lit))
}

/// Короткое имя провайдера для отображения в имени ключа.
pub fn provider_label(provider: &str) -> (r: &str)
    ensures
        r@ == label_of(provider@),
{
    let p = chars_of(provider);
    if is_text(&p, "vk") {
        "VK"
    } else if is_text(&p, "yandex") {
        "YA"
    } else if is_text(&p, "mts") {
        "MTS"
    } else if is_text(&p, "beeline") {
        "Beeline"
    } else if is_text(&p, "megafon") {
        "MegaFon"
    } else if is_text(&p, "rostelecom") {
        "Rostelecom"
    } else if is_text(&p, "tele2") {
        "Tele2"
    } else if is_text(&p, "ertelecom") {
        "ER-Telecom"
    } else if is_text(&p, "ttk") {
        "TTK"
    } else {
        provider
    }
}

/// The Russian flag, every listed network being Russian.
pub open spec fn flag() -> Seq<char> {
    "\u{1F1F7}\u{1F1FA}"@
}

/// Флаг страны провайдера (эмодзи, без текста). Белый список — только РФ.
pub fn provider_flag(_provider: &str) -> (r: &str)
    ensures
        r@ == flag(),
{
    "\u{1F1F7}\u{1F1FA}"
}

/// Speed shown in a remark: the measured throughput text when there is
/// one, else the latency in milliseconds, else `n/a`.
pub open spec fn speed_text(throughput: Option<Seq<char>>, latency_ms: Option<u128>) -> Seq<char> {
    match throughput {
        Some(t) => t,
        None => match latency_ms {
            Some(ms) => decimal(ms as nat) + seq!['m', 's'],
            None => "n/a"@,
        },
    }
}

/// The speed shown for a node: the throughput text when there is one;
/// otherwise, for a latency of `ms` milliseconds, the full number `ms` in
/// decimal digits (no leading zero) followed by `ms`; `n/a` without either.
pub proof fn lemma_speed_label_value(t: Seq<char>, other: Option<u128>, ms: u128)
    ensures
        speed_text(Some(t), other) == t,
        speed_text(None, None) == "n/a"@,
        ({
            let l = speed_text(None, Some(ms));
            let digits = l.take(l.len() - 2);
            &&& l.len() >= 3
            &&& l[l.len() - 2] == 'm' && l[l.len() - 1] == 's'
            &&& forall|i: int| 0 <= i < digits.len() ==> is_digit(#[trigger] digits[i])
            &&& digits_value(digits) == ms
            &&& (digits.len() == 1 || digits[0] != '0')
        }),
{
    let d = decimal(ms as nat);
    let l = speed_text(None, Some(ms));
    lemma_decimal_digits(ms as nat);
    lemma_decimal_leading(ms as nat);
    assert(l.take(l.len() - 2) =~= d);
    if d.len() > 1 {
        assert(ms >= 10) by {
            if ms < 10 {
                assert(d.len() == 1);
            }
        }
    }
}

/// Text of an optional string.
pub open spec fn opt_view(s: Option<String>) -> Option<Seq<char>> {
    match s {
        Some(t) => Some(t@),
        None => None,
    }
}

/// Speed shown in a remark.
pub fn speed_label(throughput: Option<String>, latency_ms: Option<u128>) -> (r: String)
    ensures
        r@ == speed_text(opt_view(throughput), latency_ms),
{
    match throughput {
        Some(t) => t,
        None => match latency_ms {
            Some(ms) => {
                let mut out: Vec<char> = Vec::new();
                push_decimal(&mut out, ms);
                out.push('m');
                out.push('s');
                string_of(&out)
            },
            None => "n/a".to_owned(),
        },
    }
}

/// Remark of the node ranked `rank` (from 1): `flag:LABEL #NN · speed`.
pub open spec fn remark_text(provider: Seq<char>, rank: nat, speed: Seq<char>) -> Seq<char> {
    flag() + seq![':'] + label_of(provider) + seq![' ', '#'] + zero_pad(decimal(rank), 2) + seq![
        ' ',
        '\u{00B7}',
        ' ',
    ] + speed
}

/// The remark of the node ranked `rank` (1 to 99) reads: the flag, `:`, the
/// provider's label, ` #`, the rank as two decimal digits, ` · `, and the
/// speed text.
pub proof fn lemma_remark_layout(provider: Seq<char>, rank: nat, speed: Seq<char>)
    requires
        1 <= rank < 100,
    ensures
        ({
            let r = remark_text(provider, rank, speed);
            let k: int = (flag().len() + 1 + label_of(provider).len()) as int;
            let f: int = flag().len() as int;
            &&& r.take(f) == flag()
            &&& r[f] == ':'
            &&& r.subrange(f + 1, k) == label_of(provider)
            &&& r[k] == ' ' && r[k + 1] == '#'
            &&& is_digit(r[k + 2]) && is_digit(r[k + 3])
            &&& digits_value(r.subrange(k + 2, k + 4)) == rank
            &&& r[k + 4] == ' ' && r[k + 5] == '\u{00B7}' && r[k + 6] == ' '
            &&& r.skip(k + 7) == speed
        }),
{
    let d = decimal(rank);
    let z = zero_pad(d, 2);
    lemma_decimal_digits(rank);
    lemma_decimal_short(rank);
    if rank < 10 {
        assert(d.len() == 1);
        assert(z =~= seq!['0', d[0]]);
        assert(z.drop_last() =~= seq!['0']);
        assert(digits_value(seq!['0']) == 0) by {
            assert(seq!['0'].drop_last() =~= Seq::<char>::empty());
            assert(digits_value(Seq::<char>::empty()) == 0);
            assert(('0' as u32) == 48);
        }
        assert(digits_value(d) == digits_value(d.drop_last()) * 10 + ((d.last() as u32) - 48) as nat);
        assert(d.drop_last() =~= Seq::<char>::empty());
        assert(digits_value(z) == rank);
    } else {
        lemma_decimal_digits(rank / 10);
        assert(d.len() == decimal(rank / 10).len() + 1);
        assert(d.len() == 2);
        assert(z == d);
    }
    let r = remark_text(provider, rank, speed);
    let f = flag();
    let l = label_of(provider);
    let k: int = (f.len() + 1 + l.len()) as int;
    assert(r =~= f + seq![':'] + l + seq![' ', '#'] + z + seq![' ', '\u{00B7}', ' '] + speed);
    assert(r.subrange(k + 2, k + 4) =~= z);
    assert(r.take(f.len() as int) =~= f);
    assert(r.subrange(f.len() as int + 1, k) =~= l);
    assert(r.skip(k + 7) =~= speed);
}

/// Remark of the node ranked `rank` (from 1).
pub fn render_remark(provider: &str, rank: usize, speed: &str) -> (r: String)
    ensures
        r@ == remark_text(provider@, rank as nat, speed@),
{
    let mut out = chars_of(provider_flag(provider));
    out.push(':');
    extend_chars(&mut out, &chars_of(provider_label(provider)));
    out.push(' ');
    out.push('#');
    push_decimal_padded(&mut out, rank as u128, 2);
    out.push(' ');
    out.push('\u{00B7}');
    out.push(' ');
    extend_chars(&mut out, &chars_of(speed));
    assert(out@ =~= remark_text(provider@, rank as nat, speed@));
    string_of(&out)
}

/// A tested node ready for rendering: the node, its provider and the speed
/// text of its remark.
pub struct RankedNode {
    pub node: VlessNode,
    pub provider: String,
    pub speed: String,
}

/// The link of a ranked node: its node with the remark rewritten.
pub open spec fn ranked_link(r: RankedNode, rank: nat) -> Seq<char> {
    spec_link(NodeView { remark: remark_text(r.provider@, rank, r.speed@), ..r.node@ })
}

/// Переписывает имя каждого ключа в формат `[флаг]:[провайдер]` и возвращает
/// список `vless://` ссылок в порядке ранжирования (лучшие первыми).
pub fn render_links(ranked: &[RankedNode]) -> (r: Vec<String>)
    ensures
        r@.len() == ranked@.len(),
        forall|i: int| 0 <= i < r@.len() ==> (#[trigger] r@[i])@ == ranked_link(ranked@[i], (i + 1) as nat),
{
    let mut links: Vec<String> = Vec::new();
    let mut i: usize = 0;
    while i < ranked.len()
        invariant
            0 <= i <= ranked@.len(),
            links@.len() == i,
            forall|k: int| 0 <= k < i ==> (#[trigger] links@[k])@ == ranked_link(ranked@[k], (k + 1) as nat),
        decreases ranked.len() - i,
    {
        let t = &ranked[i];
        let mut node = t.node.duplicate();
        node.set_remark(render_remark(t.provider.as_str(), i + 1, t.speed.as_str()));
        links.push(node.to_link());
        i = i + 1;
    }
    links
}

/// A rendered link reads back as its node with the new remark, for every
/// node whose fields survive a link (`link_safe`): the link stays a valid
/// VLESS link with the same transport and parameters.
pub proof fn lemma_ranked_link_parses(r: RankedNode, rank: nat)
    requires
        crate::roundtrip::link_safe(r.node@),
    ensures
        spec_parse(ranked_link(r, rank)) == Ok::<NodeView, ParseError>(
            NodeView { remark: remark_text(r.provider@, rank, r.speed@), ..r.node@ },
        ),
{
    crate::roundtrip::lemma_link_round_trip(
        NodeView { remark: remark_text(r.provider@, rank, r.speed@), ..r.node@ },
    );
}

/// The links `render_links` gives for ranked nodes, best first.
pub open spec fn rendered_links(ranked: Seq<RankedNode>) -> Seq<Seq<char>> {
    Seq::new(ranked.len(), |i: int| ranked_link(ranked[i], (i + 1) as nat))
}

/// The subscription written for ranked nodes reads back, through link
/// extraction, as exactly their rendered links, in order, whenever no
/// node's uuid or host holds white space.
pub proof fn lemma_rendered_subscription(ranked: Seq<RankedNode>)
    requires
        forall|i: int|
            0 <= i < ranked.len() ==> ws_free((#[trigger] ranked[i]).node@.uuid) && ws_free(
                ranked[i].node@.host,
            ),
    ensures
        crate::sources::spec_extract_links(
            base64_encoded(encode_utf8(join_lines(rendered_links(ranked)).push('\n'))),
        ) == rendered_links(ranked),
{
    let ls = rendered_links(ranked);
    assert forall|i: int| 0 <= i < ls.len() implies starts_with(#[trigger] ls[i], scheme()) && forall|
        j: int,
    | 0 <= j < ls[i].len() ==> !is_ws(#[trigger] ls[i][j]) by {
        let r = ranked[i];
        lemma_link_shape(NodeView { remark: remark_text(r.provider@, (i + 1) as nat, r.speed@), ..r.node@ });
    }
    crate::sources::lemma_subscription_reads_back(ls);
}

/// A machine-readable summary of a run.
pub struct Report {
    pub generated_at: String,
    pub total: usize,
    /// Number of nodes of each provider, in provider-name order.
    pub by_provider: Vec<(String, usize)>,
}

/// Number of nodes per provider, in provider-name order: each name of
/// `providers` counted as `BTreeMap::entry(..).or_insert(0) += 1` counts it.
pub open spec fn provider_counts(providers: Seq<Seq<char>>) -> Seq<(Seq<char>, nat)>
    decreases providers.len(),
{
    if providers.len() == 0 {
        Seq::empty()
    } else {
        let acc = provider_counts(providers.drop_last());
        let p = providers.last();
        let n: nat = match lookup(acc, p) {
            Some(c) => c + 1,
            None => 1,
        };
        insert_sorted(acc, p, n)
    }
}

/// Characters and count of each entry.
pub open spec fn counts_view(v: Seq<(String, usize)>) -> Seq<(Seq<char>, nat)> {
    v.map_values(|e: (String, usize)| (e.0@, e.1 as nat))
}

/// Number of times `name` occurs in `ps`.
pub open spec fn occurrences(ps: Seq<Seq<char>>, name: Seq<char>) -> nat
    decreases ps.len(),
{
    if ps.len() == 0 {
        0
    } else {
        occurrences(ps.drop_last(), name) + if ps.last() == name {
            1nat
        } else {
            0nat
        }
    }
}

/// Each provider's count in the report is the number of nodes it has; a
/// provider with no nodes has no entry.
pub proof fn lemma_provider_counts(providers: Seq<Seq<char>>, name: Seq<char>)
    ensures
        lookup(provider_counts(providers), name) == if occurrences(providers, name) > 0 {
            Some(occurrences(providers, name))
        } else {
            None
        },
    decreases providers.len(),
{
    if providers.len() > 0 {
        let init = providers.drop_last();
        let p = providers.last();
        lemma_provider_counts(init, name);
        lemma_provider_counts(init, p);
        lemma_counts_bounded(init);
        let acc = provider_counts(init);
        let n: nat = match lookup(acc, p) {
            Some(c) => c + 1,
            None => 1,
        };
        crate::params::lemma_lookup_insert(acc, p, n, name);
    }
}

/// Sum of the counts.
pub open spec fn counts_total(s: Seq<(Seq<char>, nat)>) -> nat
    decreases s.len(),
{
    if s.len() == 0 {
        0
    } else {
        s[0].1 + counts_total(s.drop_first())
    }
}

proof fn lemma_lookup_below(s: Seq<(Seq<char>, nat)>, k: Seq<char>)
    requires
        key_sorted(s),
        s.len() > 0,
        seq_lt(k, s[0].0),
    ensures
        lookup(s, k) is None,
    decreases s.len(),
{
    if s[0].0 == k {
        crate::text::lemma_seq_lt_irreflexive(k);
    }
    let t = s.drop_first();
    if t.len() > 0 {
        assert(seq_lt(s[0].0, s[1].0));
        crate::text::lemma_seq_lt_transitive(k, s[0].0, s[1].0);
        assert forall|a: int, b: int| 0 <= a < b < t.len() implies seq_lt(
            #[trigger] t[a].0,
            #[trigger] t[b].0,
        ) by {
            assert(t[a] == s[a + 1] && t[b] == s[b + 1]);
        }
        lemma_lookup_below(t, k);
    }
}

proof fn lemma_total_insert(s: Seq<(Seq<char>, nat)>, k: Seq<char>, v: nat)
    requires
        key_sorted(s),
    ensures
        counts_total(insert_sorted(s, k, v)) + (match lookup(s, k) {
            Some(c) => c,
            None => 0nat,
        }) == counts_total(s) + v,
    decreases s.len(),
{
    let r = insert_sorted(s, k, v);
    if s.len() == 0 {
        assert(r[0] == (k, v));
        assert(r.drop_first() =~= Seq::<(Seq<char>, nat)>::empty());
        assert(counts_total(r.drop_first()) == 0);
    } else {
        let t = s.drop_first();
        if s[0].0 == k {
            assert(r[0] == (k, v));
            assert(r.drop_first() =~= t);
        } else if seq_lt(k, s[0].0) {
            assert(r[0] == (k, v));
            assert(r.drop_first() =~= s);
            lemma_lookup_below(s, k);
        } else {
            assert(r[0] == s[0]);
            assert forall|a: int, b: int| 0 <= a < b < t.len() implies seq_lt(
                #[trigger] t[a].0,
                #[trigger] t[b].0,
            ) by {
                assert(t[a] == s[a + 1] && t[b] == s[b + 1]);
            }
            lemma_total_insert(t, k, v);
            assert(r.drop_first() =~= insert_sorted(t, k, v));
        }
    }
}

/// The counts of the report add up to the number of nodes.
pub proof fn lemma_provider_counts_total(providers: Seq<Seq<char>>)
    ensures
        counts_total(provider_counts(providers)) == providers.len(),
    decreases providers.len(),
{
    if providers.len() > 0 {
        let init = providers.drop_last();
        let p = providers.last();
        lemma_provider_counts_total(init);
        lemma_counts_bounded(init);
        let acc = provider_counts(init);
        let n: nat = match lookup(acc, p) {
            Some(c) => c + 1,
            None => 1,
        };
        lemma_total_insert(acc, p, n);
    }
}

proof fn lemma_counts_bounded(providers: Seq<Seq<char>>)
    ensures
        key_sorted(provider_counts(providers)),
        forall|i: int|
            0 <= i < provider_counts(providers).len() ==> #[trigger] provider_counts(providers)[i].1
                <= providers.len(),
    decreases providers.len(),
{
    if providers.len() > 0 {
        let init = providers.drop_last();
        lemma_counts_bounded(init);
        let acc = provider_counts(init);
        let p = providers.last();
        crate::params::lemma_insert_sorted_sorted(acc, p, match lookup(acc, p) {
            Some(c) => c + 1,
            None => 1nat,
        });
        lemma_lookup_bounded(acc, p, init.len());
        let n: nat = match lookup(acc, p) {
            Some(c) => c + 1,
            None => 1,
        };
        lemma_insert_values_bounded(acc, p, n, providers.len());
    }
}

proof fn lemma_lookup_bounded(s: Seq<(Seq<char>, nat)>, k: Seq<char>, b: nat)
    requires
        forall|i: int| 0 <= i < s.len() ==> #[trigger] s[i].1 <= b,
    ensures
        lookup(s, k) matches Some(c) ==> c <= b,
    decreases s.len(),
{
    if s.len() > 0 && s[0].0 != k {
        let t = s.drop_first();
        assert forall|i: int| 0 <= i < t.len() implies #[trigger] t[i].1 <= b by {
            assert(t[i] == s[i + 1]);
        }
        lemma_lookup_bounded(t, k, b);
    }
}

proof fn lemma_insert_values_bounded(s: Seq<(Seq<char>, nat)>, k: Seq<char>, v: nat, b: nat)
    requires
        forall|i: int| 0 <= i < s.len() ==> #[trigger] s[i].1 <= b,
        v <= b,
    ensures
        forall|i: int|
            0 <= i < insert_sorted(s, k, v).len() ==> #[trigger] insert_sorted(s, k, v)[i].1 <= b,
    decreases s.len(),
{
    if s.len() > 0 {
        let t = s.drop_first();
        assert forall|i: int| 0 <= i < t.len() implies #[trigger] t[i].1 <= b by {
            assert(t[i] == s[i + 1]);
        }
        lemma_insert_values_bounded(t, k, v, b);
        let r = insert_sorted(s, k, v);
        assert forall|i: int| 0 <= i < r.len() implies #[trigger] r[i].1 <= b by {
            if s[0].0 == k {
                if i > 0 {
                    assert(r[i] == t[i - 1]);
                }
            } else if seq_lt(k, s[0].0) {
                if i > 0 {
                    assert(r[i] == s[i - 1]);
                }
            } else {
                if i > 0 {
                    assert(r[i] == insert_sorted(t, k, v)[i - 1]);
                }
            }
        }
    }
}

/// Number of nodes per provider, as the run report lists them.
pub fn count_by_provider(providers: &[String]) -> (r: Vec<(String, usize)>)
    ensures
        counts_view(r@) == provider_counts(strings_view(providers@)),
{
    let ghost ps = strings_view(providers@);
    let mut out: Vec<(String, usize)> = Vec::new();
    let mut i: usize = 0;
    assert(counts_view(out@) =~= provider_counts(ps.take(0)));
    while i < providers.len()
        invariant
            0 <= i <= providers@.len(),
            ps == strings_view(providers@),
            counts_view(out@) == provider_counts(ps.take(i as int)),
        decreases providers.len() - i,
    {
        let ghost acc = counts_view(out@);
        let ghost pre = ps.take(i as int);
        proof {
            lemma_counts_bounded(pre);
            assert(ps.take(i + 1).drop_last() =~= pre);
            assert(ps.take(i + 1).last() == providers@[i as int]@);
        }
        let k = chars_of(providers[i].as_str());
        let mut j: usize = 0;
        while j < out.len() && chars_lt(&chars_of(out[j].0.as_str()), &k)
            invariant
                0 <= j <= out@.len(),
                acc == counts_view(out@),
                acc.len() == out@.len(),
                k@ == providers@[i as int]@,
                forall|m: int| 0 <= m < j ==> seq_lt(#[trigger] acc[m].0, k@),
            decreases out.len() - j,
        {
            j = j + 1;
        }
        proof {
            lemma_insert_at(acc, k@, 0nat, j as int);
        }
        if j < out.len() && chars_eq(&chars_of(out[j].0.as_str()), &k) {
            let c = out[j].1;
            proof {
                assert(acc[j as int].1 <= pre.len());
                lemma_lookup_at(acc, k@, j as int);
                lemma_insert_at(acc, k@, (c + 1) as nat, j as int);
            }
            let name = out[j].0.clone();
            out.set(j, (name, c + 1));
            assert(counts_view(out@) =~= acc.update(j as int, (k@, (c + 1) as nat)));
        } else {
            proof {
                lemma_lookup_absent(acc, k@, j as int);
                lemma_insert_at(acc, k@, 1nat, j as int);
            }
            out.insert(j, (providers[i].clone(), 1));
            assert(counts_view(out@) =~= acc.insert(j as int, (k@, 1nat)));
        }
        i = i + 1;
    }
    assert(ps.take(providers@.len() as int) =~= ps);
    out
}

proof fn lemma_lookup_at<V>(s: Seq<(Seq<char>, V)>, k: Seq<char>, j: int)
    requires
        key_sorted(s),
        0 <= j < s.len(),
        s[j].0 == k,
    ensures
        lookup(s, k) == Some(s[j].1),
    decreases j,
{
    if j > 0 {
        assert(seq_lt(s[0].0, s[j].0));
        if s[0].0 == k {
            crate::text::lemma_seq_lt_irreflexive(k);
        }
        let t = s.drop_first();
        assert forall|a: int, b: int| 0 <= a < b < t.len() implies seq_lt(
            #[trigger] t[a].0,
            #[trigger] t[b].0,
        ) by {
            assert(t[a] == s[a + 1] && t[b] == s[b + 1]);
        }
        lemma_lookup_at(t, k, j - 1);
    }
}

proof fn lemma_lookup_absent<V>(s: Seq<(Seq<char>, V)>, k: Seq<char>, j: int)
    requires
        key_sorted(s),
        0 <= j <= s.len(),
        forall|i: int| 0 <= i < j ==> seq_lt(#[trigger] s[i].0, k),
        j == s.len() || !seq_lt(s[j].0, k),
        j == s.len() || s[j].0 != k,
    ensures
        lookup(s, k) is None,
    decreases s.len(),
{
    if s.len() > 0 {
        let t = s.drop_first();
        assert forall|a: int, b: int| 0 <= a < b < t.len() implies seq_lt(
            #[trigger] t[a].0,
            #[trigger] t[b].0,
        ) by {
            assert(t[a] == s[a + 1] && t[b] == s[b + 1]);
        }
        if j == 0 {
            crate::text::lemma_seq_lt_total(s[0].0, k);
            assert forall|i: int| 0 <= i < s.len() implies s[i].0 != k by {
                if i > 0 {
                    crate::text::lemma_seq_lt_transitive(k, s[0].0, s[i].0);
                    crate::text::lemma_seq_lt_irreflexive(k);
                }
            }
            lemma_lookup_none(s, k);
        } else {
            if s[0].0 == k {
                crate::text::lemma_seq_lt_irreflexive(k);
            }
            assert forall|i: int| 0 <= i < j - 1 implies seq_lt(#[trigger] t[i].0, k) by {
                assert(t[i] == s[i + 1]);
            }
            if j < s.len() {
                assert(t[j - 1] == s[j]);
            }
            lemma_lookup_absent(t, k, j - 1);
        }
    }
}

proof fn lemma_lookup_none<V>(s: Seq<(Seq<char>, V)>, k: Seq<char>)
    requires
        forall|i: int| 0 <= i < s.len() ==> s[i].0 != k,
    ensures
        lookup(s, k) is None,
    decreases s.len(),
{
    if s.len() > 0 {
        let t = s.drop_first();
        assert forall|i: int| 0 <= i < t.len() implies t[i].0 != k by {
            assert(t[i] == s[i + 1]);
        }
        lemma_lookup_none(t, k);
    }
}

/// The links, one per line.
pub open spec fn join_lines(ls: Seq<Seq<char>>) -> Seq<char>
    decreases ls.len(),
{
    if ls.len() == 0 {
        Seq::empty()
    } else if ls.len() == 1 {
        ls[0]
    } else {
        join_lines(ls.drop_last()) + seq!['\n'] + ls.last()
    }
}

/// `links.join("\n")`.
pub fn joined_links(links: &[String]) -> (r: String)
    ensures
        r@ == join_lines(strings_view(links@)),
{
    let ghost ls = strings_view(links@);
    let mut out: Vec<char> = Vec::new();
    let mut i: usize = 0;
    while i < links.len()
        invariant
            0 <= i <= links@.len(),
            ls == strings_view(links@),
            out@ == join_lines(ls.take(i as int)),
        decreases links.len() - i,
    {
        if i > 0 {
            out.push('\n');
        }
        extend_chars(&mut out, &chars_of(links[i].as_str()));
        proof {
            let t = ls.take(i + 1);
            assert(t.drop_last() =~= ls.take(i as int));
            assert(t.last() == links@[i as int]@);
            if i == 0 {
                assert(t.len() == 1);
            }
            assert(out@ =~= join_lines(t));
        }
        i = i + 1;
    }
    assert(ls.take(links@.len() as int) =~= ls);
    string_of(&out)
}

/// Content of `vless.txt`: the links, one per line, and a final newline.
pub fn vless_file(links: &[String]) -> (r: String)
    ensures
        r@ == join_lines(strings_view(links@)).push('\n'),
{
    let mut out = chars_of(joined_links(links).as_str());
    out.push('\n');
    string_of(&out)
}

/// The standard base64 alphabet.
pub open spec fn b64_char(i: int) -> char {
    if i < 26 {
        ((65 + i) as u32) as char
    } else if i < 52 {
        ((71 + i) as u32) as char
    } else if i < 62 {
        ((i - 4) as u32) as char
    } else if i == 62 {
        '+'
    } else {
        '/'
    }
}

/// Standard base64 with `=` padding: each 3 bytes become 4 characters; a
/// final 1 or 2 bytes become 2 or 3 characters and padding.
pub open spec fn base64_encoded(b: Seq<u8>) -> Seq<char>
    decreases b.len(),
{
    if b.len() == 0 {
        Seq::empty()
    } else if b.len() == 1 {
        seq![b64_char((b[0] / 4) as int), b64_char((b[0] % 4) * 16), '=', '=']
    } else if b.len() == 2 {
        seq![
            b64_char((b[0] / 4) as int),
            b64_char((b[0] % 4) * 16 + b[1] / 16),
            b64_char((b[1] % 16) * 4),
            '=',
        ]
    } else {
        seq![
            b64_char((b[0] / 4) as int),
            b64_char((b[0] % 4) * 16 + b[1] / 16),
            b64_char((b[1] % 16) * 4 + b[2] / 64),
            b64_char((b[2] % 64) as int),
        ] + base64_encoded(b.skip(3))
    }
}

/// Whether the base64 encoding of `n` bytes has a length that fits `usize`.
pub open spec fn base64_fits(n: nat) -> bool {
    (n + 2) / 3 * 4 <= usize::MAX
}

/// Calls `base64::engine::general_purpose::STANDARD.encode`. Claimed: the
/// standard alphabet with `=` padding, as `base64_encoded` states it. The
/// crate panics when the encoded length overflows `usize`; `requires` rules
/// that out.
#[verifier::external_body]
fn base64_standard(bytes: &[u8]) -> (r: String)
    requires
        base64_fits(bytes@.len()),
    ensures
        r@ == base64_encoded(bytes@),
{
    base64::engine::general_purpose::STANDARD.encode(bytes)
}

/// Content of `subscription.txt`: base64 of the content of `vless.txt`
/// (the format Hiddify imports).
pub fn subscription_file(links: &[String]) -> (r: String)
    requires
        base64_fits(encode_utf8(join_lines(strings_view(links@)).push('\n')).len()),
    ensures
        r@ == base64_encoded(encode_utf8(join_lines(strings_view(links@)).push('\n'))),
{
    let plain = vless_file(links);
    base64_standard(plain.as_str().as_bytes())
}

} // verus!
