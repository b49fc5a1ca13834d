//! Archive-wide schema harvesting: filter the entry names, read and parse
//! each qualifying file, tag it with its canonical namespace code, order the
//! documents deterministically, and merge each converted unit into the
//! registry and the content-type map.

use vstd::prelude::*;
use vstd::relations::sorted_by;
use vstd::seq_lib::lemma_sorted_unique;
use crate::namespaces::{schema_code, schema_code_spec};
use crate::registry::{sorted_upsert, upsert, ContentTypeMap, SchemaRegistry};
use crate::text::{
    has_prefix, has_suffix, lemma_lex_connected, lemma_lex_total_ordering, lemma_lex_trans,
    lex_leq, lex_leq_rel, str_eq, str_ends_with, str_leq, str_starts_with, vec_views,
};
use crate::trusted::{
    archive_names, parse_xml, read_entry, schema_title, schema_title_of, target_namespace,
    xml_target_namespace, xml_well_formed, zip_entry_map,
};

verus! {

/// An entry name the harvest processes: a schema file under the
/// documentation root, not in the reserved snapshot tree, and not one of the
/// two excluded external schema paths.
pub open spec fn qualifies(n: Seq<char>) -> bool {
    &&& has_prefix(n, "doc/etc/"@)
    &&& has_suffix(n, ".xsd"@)
    &&& !has_prefix(n, "doc/etc/etc/snapshot"@)
    &&& n != "doc/etc/schemas/external/xml.xsd"@
    &&& n != "doc/etc/etc/schemas/external/xml.xsd"@
}

pub fn qualifies_name(name: &str) -> (r: bool)
    ensures
        r == qualifies(name@),
{
    str_starts_with(name, "doc/etc/") && str_ends_with(name, ".xsd") && !str_starts_with(
        name,
        "doc/etc/etc/snapshot",
    ) && !str_eq(name, "doc/etc/schemas/external/xml.xsd") && !str_eq(
        name,
        "doc/etc/etc/schemas/external/xml.xsd",
    )
}

/// The qualifying names, in their incoming order.
pub open spec fn keep_qualifying(s: Seq<Seq<char>>) -> Seq<Seq<char>>
    decreases s.len(),
{
    if s.len() == 0 {
        Seq::<Seq<char>>::empty()
    } else {
        let front = keep_qualifying(s.drop_last());
        if qualifies(s.last()) {
            front.push(s.last())
        } else {
            front
        }
    }
}

/// How often `x` survives the filter: as often as it occurs, when it
/// qualifies, and never otherwise.
proof fn lemma_keep_count(s: Seq<Seq<char>>, x: Seq<char>)
    ensures
        keep_qualifying(s).to_multiset().count(x) == if qualifies(x) {
            s.to_multiset().count(x)
        } else {
            0
        },
    decreases s.len(),
{
    broadcast use vstd::seq_lib::group_to_multiset_ensures;
    broadcast use vstd::multiset::group_multiset_axioms;

    if s.len() == 0 {
        assert(!s.contains(x));
        assert(!keep_qualifying(s).contains(x));
    } else {
        let dl = s.drop_last();
        lemma_keep_count(dl, x);
        assert(s =~= dl.push(s.last()));
        assert(s.to_multiset() =~= dl.to_multiset().insert(s.last()));
        if qualifies(s.last()) {
            assert(keep_qualifying(s) == keep_qualifying(dl).push(s.last()));
            assert(keep_qualifying(s).to_multiset() =~= keep_qualifying(
                dl,
            ).to_multiset().insert(s.last()));
        }
    }
}

/// The qualifying names in ascending lexicographic order: the deterministic
/// list the harvest reads, whatever order the archive listed its entries in.
pub open spec fn selected_names(s: Seq<Seq<char>>) -> Seq<Seq<char>> {
    keep_qualifying(s).sort_by(lex_leq_rel())
}

/// Sort strings into ascending lexicographic order.
fn sort_strings(v: Vec<String>) -> (r: Vec<String>)
    ensures
        vec_views(r) == vec_views(v).sort_by(lex_leq_rel()),
{
    let ghost all = vec_views(v);
    let n = v.len();
    let mut out: Vec<String> = Vec::new();
    let mut i: usize = 0;
    proof {
        assert(all.take(0) =~= Seq::<Seq<char>>::empty());
        assert(vec_views(out) =~= Seq::<Seq<char>>::empty());
        assert(Seq::<Seq<char>>::empty().to_multiset() =~= all.take(0).to_multiset());
    }
    while i < n
        invariant
            n == v@.len(),
            all == vec_views(v),
            i <= n,
            sorted_by(vec_views(out), lex_leq_rel()),
            vec_views(out).to_multiset() == all.take(i as int).to_multiset(),
        decreases n - i,
    {
        broadcast use vstd::seq_lib::group_to_multiset_ensures;
        broadcast use vstd::multiset::group_multiset_axioms;

        let x = v[i].clone();
        let ghost xv = x@;
        let ghost pre = vec_views(out);
        let mut j: usize = out.len();
        while j > 0 && !str_leq(out[j - 1].as_str(), x.as_str())
            invariant
                pre == vec_views(out),
                xv == x@,
                j <= pre.len(),
                forall|k: int| j <= k < pre.len() ==> !lex_leq(#[trigger] pre[k], xv),
            decreases j,
        {
            j -= 1;
        }
        out.insert(j, x);
        proof {
            let t = pre.insert(j as int, xv);
            assert(vec_views(out) =~= t);
            // the new list is still sorted
            pre.insert_ensures(j as int, xv);
            assert forall|a: int, b: int| 0 <= a < b < t.len() implies lex_leq_rel()(
                t[a],
                t[b],
            ) by {
                if a < j && b == j {
                    if a < j - 1 {
                        assert(lex_leq_rel()(pre[a], pre[j - 1]));
                    }
                    lemma_lex_trans_chain(pre, a, j - 1, xv);
                } else if a == j && b > j {
                    lemma_lex_connected(pre[b - 1], xv);
                } else if a < j && b > j {
                    lemma_lex_connected(pre[b - 1], xv);
                    if a < j - 1 {
                        assert(lex_leq_rel()(pre[a], pre[j - 1]));
                    }
                    lemma_lex_trans_chain(pre, a, j - 1, xv);
                    lemma_lex_trans(pre[a], xv, pre[b - 1]);
                } else if a > j && b > j {
                    assert(lex_leq_rel()(pre[a - 1], pre[b - 1]));
                } else if a < j && b < j {
                    assert(lex_leq_rel()(pre[a], pre[b]));
                }
            }
            // the new list holds the same names, once more of `x`
            assert(t.remove(j as int) =~= pre);
            assert(t.to_multiset().remove(xv) =~= pre.to_multiset());
            assert(t.to_multiset().contains(xv));
            assert(t.to_multiset() =~= pre.to_multiset().insert(xv));
            assert(all.take(i as int + 1) =~= all.take(i as int).push(all[i as int]));
            assert(all.take(i as int + 1).to_multiset() =~= all.take(
                i as int,
            ).to_multiset().insert(xv));
        }
        i += 1;
    }
    proof {
        assert(all.take(n as int) =~= all);
        lemma_lex_total_ordering();
        all.lemma_sort_by_ensures(lex_leq_rel());
        lemma_sorted_unique(vec_views(out), all.sort_by(lex_leq_rel()), lex_leq_rel());
    }
    out
}

/// To a chain `pre[a] <= ... <= pre[h] <= x` add transitivity.
proof fn lemma_lex_trans_chain(pre: Seq<Seq<char>>, a: int, h: int, x: Seq<char>)
    requires
        0 <= a <= h < pre.len(),
        a < h ==> lex_leq(pre[a], pre[h]),
        lex_leq(pre[h], x),
    ensures
        lex_leq(pre[a], x),
{
    if a < h {
        lemma_lex_trans(pre[a], pre[h], x);
    }
}

/// Filter the archive's entry names to the qualifying schema files and sort
/// them: the deterministic read order.
pub fn select_schema_names(names: Vec<String>) -> (r: Vec<String>)
    ensures
        vec_views(r) == selected_names(vec_views(names)),
        forall|i: int|
            0 <= i < vec_views(r).len() ==> qualifies(#[trigger] vec_views(r)[i]) && vec_views(
                names,
            ).contains(vec_views(r)[i]),
{
    let ghost all = vec_views(names);
    let n = names.len();
    let mut kept: Vec<String> = Vec::new();
    let mut i: usize = 0;
    proof {
        assert(all.take(0) =~= Seq::<Seq<char>>::empty());
        assert(vec_views(kept) =~= keep_qualifying(all.take(0)));
    }
    while i < n
        invariant
            n == names@.len(),
            all == vec_views(names),
            i <= n,
            vec_views(kept) == keep_qualifying(all.take(i as int)),
        decreases n - i,
    {
        proof {
            let t = all.take(i as int + 1);
            assert(t.drop_last() =~= all.take(i as int));
            assert(t.last() == all[i as int]);
        }
        if qualifies_name(names[i].as_str()) {
            let ghost pre = vec_views(kept);
            kept.push(names[i].clone());
            proof {
                assert(vec_views(kept) =~= pre.push(all[i as int]));
            }
        }
        i += 1;
    }
    proof {
        assert(all.take(n as int) =~= all);
    }
    let r = sort_strings(kept);
    proof {
        broadcast use vstd::seq_lib::group_to_multiset_ensures;

        lemma_lex_total_ordering();
        keep_qualifying(all).lemma_sort_by_ensures(lex_leq_rel());
        assert forall|k: int| 0 <= k < vec_views(r).len() implies qualifies(
            #[trigger] vec_views(r)[k],
        ) && all.contains(vec_views(r)[k]) by {
            let x = vec_views(r)[k];
            assert(vec_views(r).contains(x));
            assert(vec_views(r).to_multiset().count(x) > 0);
            lemma_keep_count(all, x);
        }
    }
    r
}

/// Any two listings of the same entry names — whatever their orders — make
/// the harvest read the same files in the same order.
pub proof fn lemma_selection_deterministic(a: Seq<Seq<char>>, b: Seq<Seq<char>>)
    requires
        a.to_multiset() == b.to_multiset(),
    ensures
        selected_names(a) == selected_names(b),
{
    assert(keep_qualifying(a).to_multiset() =~= keep_qualifying(b).to_multiset()) by {
        assert forall|x: Seq<char>|
            keep_qualifying(a).to_multiset().count(x) == keep_qualifying(
                b,
            ).to_multiset().count(x) by {
            lemma_keep_count(a, x);
            lemma_keep_count(b, x);
        }
    }
    lemma_lex_total_ordering();
    keep_qualifying(a).lemma_sort_by_ensures(lex_leq_rel());
    keep_qualifying(b).lemma_sort_by_ensures(lex_leq_rel());
    lemma_sorted_unique(
        keep_qualifying(a).sort_by(lex_leq_rel()),
        keep_qualifying(b).sort_by(lex_leq_rel()),
        lex_leq_rel(),
    );
}


/// A parsed schema document paired with its canonical namespace code;
/// untagged when the document names no target namespace.
pub struct TaggedDoc {
    pub code: Option<String>,
    pub doc: xmltree::Element,
}

/// The code a document sorts under; an untagged document sorts before every
/// code.
pub open spec fn tag_key(d: TaggedDoc) -> Seq<char> {
    match d.code {
        Some(c) => c@,
        None => Seq::<char>::empty(),
    }
}

fn tag_key_of(d: &TaggedDoc) -> (r: &str)
    ensures
        r@ == tag_key(*d),
{
    match &d.code {
        Some(c) => c.as_str(),
        None => {
            let e = "";
            proof {
                reveal_strlit("");
                assert(e@ =~= Seq::<char>::empty());
            }
            e
        },
    }
}

/// Tag one parsed document: the schema-tagging policy for a named target
/// namespace, no code at all for an absent one.
pub fn tag_document(doc: xmltree::Element) -> (r: TaggedDoc)
    ensures
        r.doc == doc,
        match xml_target_namespace(doc) {
            Some(u) => r.code matches Some(c) && c@ == schema_code_spec(u),
            None => r.code is None,
        },
{
    let code = match target_namespace(&doc) {
        Some(uri) => Some(schema_code(uri.as_str())),
        None => None,
    };
    TaggedDoc { code, doc }
}

/// Insert at the end of its code's run in a code-ordered list.
pub open spec fn insert_by_code(acc: Seq<TaggedDoc>, x: TaggedDoc) -> Seq<TaggedDoc>
    decreases acc.len(),
{
    if acc.len() == 0 {
        seq![x]
    } else if lex_leq(tag_key(acc.last()), tag_key(x)) {
        acc.push(x)
    } else {
        insert_by_code(acc.drop_last(), x).push(acc.last())
    }
}

/// The documents grouped by ascending namespace code, documents of one code
/// keeping their incoming order: a stable sort by code.
pub open spec fn order_by_code(s: Seq<TaggedDoc>) -> Seq<TaggedDoc>
    decreases s.len(),
{
    if s.len() == 0 {
        Seq::<TaggedDoc>::empty()
    } else {
        insert_by_code(order_by_code(s.drop_last()), s.last())
    }
}

/// Where the scan from the right stops, the stable insert places the new
/// document.
proof fn lemma_insert_by_code_at(acc: Seq<TaggedDoc>, x: TaggedDoc, j: int)
    requires
        0 <= j <= acc.len(),
        forall|k: int| j <= k < acc.len() ==> !lex_leq(tag_key(#[trigger] acc[k]), tag_key(x)),
        j > 0 ==> lex_leq(tag_key(acc[j - 1]), tag_key(x)),
    ensures
        insert_by_code(acc, x) == acc.insert(j, x),
    decreases acc.len(),
{
    if acc.len() == 0 {
        assert(seq![x] =~= acc.insert(0, x));
    } else if j == acc.len() {
        assert(lex_leq(tag_key(acc.last()), tag_key(x)));
        assert(acc.push(x) =~= acc.insert(acc.len() as int, x));
    } else {
        assert(!lex_leq(tag_key(acc[acc.len() - 1]), tag_key(x)));
        let dl = acc.drop_last();
        assert forall|k: int| j <= k < dl.len() implies !lex_leq(
            tag_key(#[trigger] dl[k]),
            tag_key(x),
        ) by {
            assert(dl[k] == acc[k]);
        }
        if j > 0 {
            assert(dl[j - 1] == acc[j - 1]);
        }
        lemma_insert_by_code_at(dl, x, j);
        assert(dl.insert(j, x).push(acc.last()) =~= acc.insert(j, x));
    }
}

/// Order the tagged documents by namespace code, stably.
fn sort_tagged(docs: Vec<TaggedDoc>) -> (r: Vec<TaggedDoc>)
    ensures
        r@ == order_by_code(docs@),
{
    let ghost all = docs@;
    let mut rest = docs;
    let mut out: Vec<TaggedDoc> = Vec::new();
    proof {
        assert(all.take(0) =~= Seq::<TaggedDoc>::empty());
        assert(all.skip(0) =~= all);
    }
    while rest.len() > 0
        invariant
            rest@.len() <= all.len(),
            rest@ == all.skip(all.len() - rest@.len()),
            out@ == order_by_code(all.take(all.len() - rest@.len())),
        decreases rest@.len(),
    {
        let ghost i = all.len() - rest@.len();
        let x = rest.remove(0);
        proof {
            assert(all.skip(i as int)[0] == all[i as int]);
            assert(x == all[i as int]);
            assert(all.skip(i as int).remove(0) =~= all.skip(i as int + 1));
        }
        let ghost pre = out@;
        let mut j: usize = out.len();
        while j > 0 && !str_leq(tag_key_of(&out[j - 1]), tag_key_of(&x))
            invariant
                pre == out@,
                j <= pre.len(),
                forall|k: int| j <= k < pre.len() ==> !lex_leq(tag_key(#[trigger] pre[k]), tag_key(x)),
            decreases j,
        {
            j -= 1;
        }
        proof {
            lemma_insert_by_code_at(pre, x, j as int);
        }
        out.insert(j, x);
        proof {
            let t = all.take(i as int + 1);
            assert(t.drop_last() =~= all.take(i as int));
            assert(t.last() == all[i as int]);
            assert(out@ == insert_by_code(order_by_code(all.take(i as int)), all[i as int]));
        }
    }
    proof {
        assert(all.take(all.len() as int) =~= all);
    }
    out
}

/// A fatal harvest failure: an archive entry that cannot be read, or a
/// structural conversion the collaborator refused.
#[derive(Debug, PartialEq)]
pub enum HarvestError {
    ReadEntry { name: String },
    Convert { namespace: Option<String>, message: String },
}

impl HarvestError {
    /// The error's display text, naming the entry or the namespace code.
    pub fn describe(&self) -> (r: String)
        ensures
            match self {
                HarvestError::ReadEntry { name } => r@ == "Failed to read file: "@ + name@,
                HarvestError::Convert { namespace, message } => match namespace {
                    Some(c) => r@ == "Failed to parse schema for namespace "@ + c@ + ": "@
                        + message@,
                    None => r@ == "Failed to parse schema for untagged namespace: "@ + message@,
                },
            },
    {
        match self {
            HarvestError::ReadEntry { name } => {
                let mut out = "Failed to read file: ".to_owned();
                out.append(name.as_str());
                out
            },
            HarvestError::Convert { namespace, message } => match namespace {
                Some(c) => {
                    let mut out = "Failed to parse schema for namespace ".to_owned();
                    out.append(c.as_str());
                    out.append(": ");
                    out.append(message.as_str());
                    out
                },
                None => {
                    let mut out = "Failed to parse schema for untagged namespace: ".to_owned();
                    out.append(message.as_str());
                    out
                },
            },
        }
    }
}

/// What the structural converter yields for one document: the produced
/// schemas and their content-type associations.
pub struct ConvertedUnit {
    pub schemas: Vec<openapiv3::Schema>,
    pub content_types: Vec<(String, String)>,
}

/// The structural XSD → schema converter, an external collaborator: it takes
/// the canonical namespace code, the parsed document and an auxiliary context
/// and yields a converted unit, or fails with a message.  Nothing is assumed
/// of its behaviour; the harvest handles every outcome.
pub trait SchemaConverter {
    fn convert(
        &self,
        code: Option<&str>,
        doc: &xmltree::Element,
        aux: &Vec<xmltree::Element>,
    ) -> Result<ConvertedUnit, String>;
}

/// The view pairs of a vector of string pairs.
pub open spec fn kv_views(v: Vec<(String, String)>) -> Seq<(Seq<char>, Seq<char>)> {
    Seq::new(v@.len(), |i: int| (v@[i].0@, v@[i].1@))
}

/// The registry after one unit's schemas: each one carrying a non-empty
/// title enters under it, in order, last write winning.
pub open spec fn registry_after(
    r0: Seq<(Seq<char>, openapiv3::Schema)>,
    ss: Seq<openapiv3::Schema>,
) -> Seq<(Seq<char>, openapiv3::Schema)>
    decreases ss.len(),
{
    if ss.len() == 0 {
        r0
    } else {
        let front = registry_after(r0, ss.drop_last());
        match schema_title_of(ss.last()) {
            Some(t) => if t.len() > 0 {
                upsert(front, t, ss.last())
            } else {
                front
            },
            None => front,
        }
    }
}

/// The map after one unit's content-type pairs, in order, last write
/// winning.
pub open spec fn map_after(
    m0: Seq<(Seq<char>, Seq<char>)>,
    ps: Seq<(Seq<char>, Seq<char>)>,
) -> Seq<(Seq<char>, Seq<char>)>
    decreases ps.len(),
{
    if ps.len() == 0 {
        m0
    } else {
        sorted_upsert(map_after(m0, ps.drop_last()), ps.last().0, ps.last().1)
    }
}

/// Merge one converted unit: titled schemas into the registry, content-type
/// pairs into the map, both last write winning.
pub fn merge_unit(output: &mut SchemaRegistry, map: &mut ContentTypeMap, unit: ConvertedUnit)
    requires
        old(map).wf(),
    ensures
        final(output)@ == registry_after(old(output)@, unit.schemas@),
        old(output).wf() ==> final(output).wf(),
        final(map)@ == map_after(old(map)@, kv_views(unit.content_types)),
        final(map).wf(),
{
    let ConvertedUnit { schemas: produced, content_types: pairs } = unit;
    let ghost all_s = produced@;
    let mut rest = produced;
    proof {
        assert(all_s.take(0) =~= Seq::<openapiv3::Schema>::empty());
        assert(all_s.skip(0) =~= all_s);
    }
    while rest.len() > 0
        invariant
            old(map).wf(),
            map@ == old(map)@,
            map.wf(),
            rest@.len() <= all_s.len(),
            rest@ == all_s.skip(all_s.len() - rest@.len()),
            output@ == registry_after(old(output)@, all_s.take(all_s.len() - rest@.len())),
            old(output).wf() ==> output.wf(),
        decreases rest@.len(),
    {
        let ghost i = all_s.len() - rest@.len();
        let s = rest.remove(0);
        proof {
            assert(all_s.skip(i as int)[0] == all_s[i as int]);
            assert(s == all_s[i as int]);
            assert(all_s.skip(i as int).remove(0) =~= all_s.skip(i as int + 1));
            let t = all_s.take(i as int + 1);
            assert(t.drop_last() =~= all_s.take(i as int));
            assert(t.last() == all_s[i as int]);
        }
        match schema_title(&s) {
            Some(t) => {
                if t.as_str().unicode_len() > 0 {
                    output.insert(t, s);
                }
            },
            None => {},
        }
    }
    proof {
        assert(all_s.take(all_s.len() as int) =~= all_s);
    }
    let ghost all_p = kv_views(pairs);
    let mut prest = pairs;
    proof {
        assert(all_p.take(0) =~= Seq::<(Seq<char>, Seq<char>)>::empty());
    }
    let n = prest.len();
    let ghost pv = prest@;
    let mut i: usize = 0;
    while i < n
        invariant
            n == pv.len(),
            pv == prest@,
            all_p == kv_views(prest),
            i <= n,
            map@ == map_after(old(map)@, all_p.take(i as int)),
            map.wf(),
            output@ == registry_after(old(output)@, unit.schemas@),
            old(output).wf() ==> output.wf(),
        decreases n - i,
    {
        let k = prest[i].0.clone();
        let v = prest[i].1.clone();
        proof {
            let t = all_p.take(i as int + 1);
            assert(t.drop_last() =~= all_p.take(i as int));
            assert(t.last() == all_p[i as int]);
            assert(k@ == all_p[i as int].0);
            assert(v@ == all_p[i as int].1);
        }
        map.insert(k, v);
        i += 1;
    }
    proof {
        assert(all_p.take(n as int) =~= all_p);
    }
}


/// A namespace code the tagging policy can produce: a table code or the
/// default.
pub open spec fn canonical_code(c: Seq<char>) -> bool {
    exists|u: Seq<char>| c == schema_code_spec(u)
}

/// The code a harvested document carries, if any, is one the tagging policy
/// produces.
pub open spec fn tagged_code_ok(d: TaggedDoc) -> bool {
    match d.code {
        Some(c) => canonical_code(c@),
        None => true,
    }
}

/// The registry after a run of converted units, merged in order.
pub open spec fn registry_after_units(
    r0: Seq<(Seq<char>, openapiv3::Schema)>,
    us: Seq<ConvertedUnit>,
) -> Seq<(Seq<char>, openapiv3::Schema)>
    decreases us.len(),
{
    if us.len() == 0 {
        r0
    } else {
        registry_after(registry_after_units(r0, us.drop_last()), us.last().schemas@)
    }
}

/// The content-type map after a run of converted units, merged in order.
pub open spec fn map_after_units(
    m0: Seq<(Seq<char>, Seq<char>)>,
    us: Seq<ConvertedUnit>,
) -> Seq<(Seq<char>, Seq<char>)>
    decreases us.len(),
{
    if us.len() == 0 {
        m0
    } else {
        map_after(map_after_units(m0, us.drop_last()), kv_views(us.last().content_types))
    }
}

/// How many of the given entries hold well-formed XML: the number of
/// documents a harvest over them parses, tags and converts.
pub open spec fn well_formed_count(m: Map<Seq<char>, Seq<u8>>, sel: Seq<Seq<char>>) -> int
    decreases sel.len(),
{
    if sel.len() == 0 {
        0
    } else {
        well_formed_count(m, sel.drop_last()) + (if xml_well_formed(m[sel.last()]) {
            1int
        } else {
            0int
        })
    }
}

/// One accounted harvest over the archive's entries `m`: `listing` is a
/// faithful enumeration of the entries, and the converter yielded one unit
/// per well-formed selected document; the final registry extends `r0` by the
/// units' merges and the returned map is their accumulated pairs.
pub open spec fn harvest_run(
    m: Map<Seq<char>, Seq<u8>>,
    r0: Seq<(Seq<char>, openapiv3::Schema)>,
    r1: Seq<(Seq<char>, openapiv3::Schema)>,
    mv: Seq<(Seq<char>, Seq<char>)>,
    listing: Seq<Seq<char>>,
    us: Seq<ConvertedUnit>,
) -> bool {
    &&& forall|i: int| 0 <= i < listing.len() ==> m.dom().contains(#[trigger] listing[i])
    &&& forall|n: Seq<char>| m.dom().contains(n) ==> listing.contains(n)
    &&& us.len() == well_formed_count(m, selected_names(listing))
    &&& r1 == registry_after_units(r0, us)
    &&& mv == map_after_units(Seq::<(Seq<char>, Seq<char>)>::empty(), us)
}

/// Some accounted harvest explains the outputs.
pub open spec fn harvest_accounted(
    m: Map<Seq<char>, Seq<u8>>,
    r0: Seq<(Seq<char>, openapiv3::Schema)>,
    r1: Seq<(Seq<char>, openapiv3::Schema)>,
    mv: Seq<(Seq<char>, Seq<char>)>,
) -> bool {
    exists|listing: Seq<Seq<char>>, us: Seq<ConvertedUnit>|
        #[trigger] harvest_run(m, r0, r1, mv, listing, us)
}

/// The stable insert adds one document and invents none.
proof fn lemma_insert_by_code_shape(acc: Seq<TaggedDoc>, x: TaggedDoc)
    ensures
        insert_by_code(acc, x).len() == acc.len() + 1,
        forall|k: int|
            0 <= k < insert_by_code(acc, x).len() ==> (#[trigger] insert_by_code(acc, x)[k] == x
                || acc.contains(insert_by_code(acc, x)[k])),
    decreases acc.len(),
{
    if acc.len() == 0 {
    } else if lex_leq(tag_key(acc.last()), tag_key(x)) {
        let t = acc.push(x);
        assert forall|k: int| 0 <= k < t.len() implies (t[k] == x || acc.contains(t[k])) by {
            if k < acc.len() {
                assert(t[k] == acc[k]);
                assert(acc.contains(acc[k]));
            }
        }
    } else {
        let dl = acc.drop_last();
        lemma_insert_by_code_shape(dl, x);
        let inner = insert_by_code(dl, x);
        let t = inner.push(acc.last());
        assert forall|k: int| 0 <= k < t.len() implies (t[k] == x || acc.contains(t[k])) by {
            if k < inner.len() {
                assert(t[k] == inner[k]);
                if inner[k] != x {
                    assert(dl.contains(inner[k]));
                    let w = choose|w: int| 0 <= w < dl.len() && dl[w] == inner[k];
                    assert(acc[w] == inner[k]);
                    assert(acc.contains(inner[k]));
                }
            } else {
                assert(t[k] == acc[acc.len() - 1]);
                assert(acc.contains(acc[acc.len() - 1]));
            }
        }
    }
}

/// Ordering by code keeps exactly the incoming documents, one place each.
proof fn lemma_order_by_code_shape(s: Seq<TaggedDoc>)
    ensures
        order_by_code(s).len() == s.len(),
        forall|k: int|
            0 <= k < order_by_code(s).len() ==> s.contains(#[trigger] order_by_code(s)[k]),
    decreases s.len(),
{
    if s.len() > 0 {
        let dl = s.drop_last();
        lemma_order_by_code_shape(dl);
        lemma_insert_by_code_shape(order_by_code(dl), s.last());
        let t = order_by_code(s);
        assert forall|k: int| 0 <= k < t.len() implies s.contains(t[k]) by {
            if t[k] == s.last() {
                assert(s[s.len() - 1] == t[k]);
                assert(s.contains(t[k]));
            } else {
                assert(order_by_code(dl).contains(t[k]));
                let w = choose|w: int| 0 <= w < order_by_code(dl).len() && order_by_code(dl)[w]
                    == t[k];
                assert(dl.contains(order_by_code(dl)[w]));
                let v = choose|v: int| 0 <= v < dl.len() && dl[v] == t[k];
                assert(s[v] == t[k]);
                assert(s.contains(t[k]));
            }
        }
    }
}

/// Harvest every qualifying schema file of the archive: list and filter the
/// entry names, read each (a read failure is fatal, named after its entry),
/// parse (malformed XML only skips that file), tag with the canonical code,
/// order deterministically, convert through the collaborator (a failure is
/// fatal, named after its namespace) and merge.  The registry is extended in
/// place and the key-sorted content-type map is returned.  On success some
/// accounted run over the archive's entries explains the outputs: one
/// converted unit per well-formed selected document, merged in order; an
/// archive without a qualifying entry is harvested to nothing.
pub fn schemas<C: SchemaConverter>(
    output: &mut SchemaRegistry,
    zip: &mut zip::read::ZipArchive<std::io::Cursor<Vec<u8>>>,
    converter: &C,
) -> (r: Result<ContentTypeMap, HarvestError>)
    ensures
        zip_entry_map(*final(zip)) == zip_entry_map(*old(zip)),
        old(output).wf() ==> final(output).wf(),
        r matches Ok(m) ==> m.wf(),
        r matches Ok(m) ==> harvest_accounted(
            zip_entry_map(*old(zip)),
            old(output)@,
            final(output)@,
            m@,
        ),
        (forall|n: Seq<char>|
            zip_entry_map(*old(zip)).dom().contains(n) ==> !qualifies(n)) ==> (r matches Ok(m)
            && m@ == Seq::<(Seq<char>, Seq<char>)>::empty() && final(output)@ == old(output)@),
        r matches Err(HarvestError::ReadEntry { name }) ==> qualifies(name@) && zip_entry_map(
            *old(zip),
        ).dom().contains(name@) && final(output)@ == old(output)@,
        r matches Err(HarvestError::Convert { namespace, .. }) ==> match namespace {
            Some(c) => canonical_code(c@),
            None => true,
        },
{
    let ghost m0 = zip_entry_map(*old(zip));
    let names = archive_names(zip);
    let selected = select_schema_names(names);
    let ghost sel = vec_views(selected);
    let ghost names_views = vec_views(names);
    let mut docs: Vec<TaggedDoc> = Vec::new();
    let mut idx: usize = 0;
    proof {
        assert(sel.take(0) =~= Seq::<Seq<char>>::empty());
        assert forall|n: Seq<char>| m0.dom().contains(n) implies names_views.contains(n) by {
            let w = choose|w: int| 0 <= w < names@.len() && names@[w]@ == n;
            assert(names_views[w] == n);
        }
    }
    while idx < selected.len()
        invariant
            m0 == zip_entry_map(*old(zip)),
            zip_entry_map(*zip) == zip_entry_map(*old(zip)),
            *output == *old(output),
            sel == vec_views(selected),
            sel == selected_names(names_views),
            idx <= selected@.len(),
            docs@.len() == well_formed_count(m0, sel.take(idx as int)),
            forall|k: int| 0 <= k < docs@.len() ==> tagged_code_ok(#[trigger] docs@[k]),
            forall|i: int|
                0 <= i < sel.len() ==> qualifies(#[trigger] sel[i]) && names_views.contains(
                    sel[i],
                ),
            forall|i: int|
                0 <= i < names_views.len() ==> m0.dom().contains(#[trigger] names_views[i]),
            forall|n: Seq<char>| m0.dom().contains(n) ==> names_views.contains(n),
        decreases selected@.len() - idx,
    {
        let got = read_entry(zip, selected[idx].as_str());
        proof {
            assert(sel[idx as int] == selected@[idx as int]@);
            let x = sel[idx as int];
            assert(names_views.contains(x));
            let w = choose|w: int| 0 <= w < names_views.len() && names_views[w] == x;
            assert(names_views[w] == x);
            assert(m0.dom().contains(x));
        }
        match got {
            None => {
                return Err(HarvestError::ReadEntry { name: selected[idx].clone() });
            },
            Some(bytes) => {
                proof {
                    assert(bytes@ == m0[sel[idx as int]]);
                    let t = sel.take(idx as int + 1);
                    assert(t.drop_last() =~= sel.take(idx as int));
                    assert(t.last() == sel[idx as int]);
                }
                match parse_xml(&bytes) {
                    None => {
                        proof {
                            assert(!xml_well_formed(m0[sel[idx as int]]));
                        }
                    },
                    Some(doc) => {
                        proof {
                            assert(xml_well_formed(m0[sel[idx as int]]));
                        }
                        let ghost gd = doc;
                        let tagged = tag_document(doc);
                        proof {
                            match xml_target_namespace(gd) {
                                Some(u) => {
                                    match &tagged.code {
                                        Some(c) => {
                                            assert(c@ == schema_code_spec(u));
                                            assert(canonical_code(c@));
                                        },
                                        None => {
                                            assert(false);
                                        },
                                    }
                                },
                                None => {},
                            }
                            assert(tagged_code_ok(tagged));
                        }
                        let ghost pre_docs = docs@;
                        docs.push(tagged);
                        proof {
                            assert(docs@ =~= pre_docs.push(tagged));
                        }
                    },
                }
            },
        }
        idx += 1;
    }
    proof {
        assert(sel.take(selected@.len() as int) =~= sel);
    }
    let ordered = sort_tagged(docs);
    let ghost total = ordered@.len();
    proof {
        lemma_order_by_code_shape(docs@);
        assert(total == well_formed_count(m0, sel));
        assert forall|k: int| 0 <= k < ordered@.len() implies tagged_code_ok(
            #[trigger] ordered@[k],
        ) by {
            assert(docs@.contains(ordered@[k]));
            let w = choose|w: int| 0 <= w < docs@.len() && docs@[w] == ordered@[k];
            assert(tagged_code_ok(docs@[w]));
        }
    }
    let mut map = ContentTypeMap::new();
    let aux: Vec<xmltree::Element> = Vec::new();
    let mut rest = ordered;
    let ghost mut units: Seq<ConvertedUnit> = Seq::empty();
    while rest.len() > 0
        invariant
            m0 == zip_entry_map(*old(zip)),
            zip_entry_map(*zip) == zip_entry_map(*old(zip)),
            map.wf(),
            old(output).wf() ==> output.wf(),
            units.len() + rest@.len() == total,
            total == well_formed_count(m0, selected_names(names_views)),
            output@ == registry_after_units(old(output)@, units),
            map@ == map_after_units(Seq::<(Seq<char>, Seq<char>)>::empty(), units),
            forall|k: int| 0 <= k < rest@.len() ==> tagged_code_ok(#[trigger] rest@[k]),
            forall|i: int|
                0 <= i < sel.len() ==> qualifies(#[trigger] sel[i]) && names_views.contains(
                    sel[i],
                ),
            forall|i: int|
                0 <= i < names_views.len() ==> m0.dom().contains(#[trigger] names_views[i]),
            forall|n: Seq<char>| m0.dom().contains(n) ==> names_views.contains(n),
            sel == selected_names(names_views),
        decreases rest@.len(),
    {
        let ghost pre_rest = rest@;
        let d = rest.remove(0);
        proof {
            assert(d == pre_rest[0]);
            assert(rest@ =~= pre_rest.drop_first());
            assert forall|k: int| 0 <= k < rest@.len() implies tagged_code_ok(
                #[trigger] rest@[k],
            ) by {
                assert(rest@[k] == pre_rest[k + 1]);
            }
        }
        let outcome = match &d.code {
            Some(c) => converter.convert(Some(c.as_str()), &d.doc, &aux),
            None => converter.convert(None, &d.doc, &aux),
        };
        match outcome {
            Err(message) => {
                proof {
                    assert(tagged_code_ok(pre_rest[0]));
                    // a conversion was under way, so something qualified
                    if sel.len() == 0 {
                        assert(well_formed_count(m0, sel) == 0);
                        assert(false);
                    }
                    let x = sel[0];
                    assert(qualifies(x));
                    let w = choose|w: int| 0 <= w < names_views.len() && names_views[w] == x;
                    assert(names_views[w] == x);
                    assert(m0.dom().contains(x));
                }
                return Err(HarvestError::Convert { namespace: d.code, message });
            },
            Ok(unit) => {
                let ghost gu = unit;
                let ghost pre_units = units;
                merge_unit(output, &mut map, unit);
                proof {
                    units = pre_units.push(gu);
                    assert(units.drop_last() =~= pre_units);
                    assert(units.last() == gu);
                    assert(output@ == registry_after_units(old(output)@, units));
                    assert(map@ == map_after_units(
                        Seq::<(Seq<char>, Seq<char>)>::empty(),
                        units,
                    ));
                }
            },
        }
    }
    proof {
        assert(units.len() == total);
        assert(harvest_run(
            m0,
            old(output)@,
            output@,
            map@,
            names_views,
            units,
        ));
        assert(harvest_accounted(m0, old(output)@, output@, map@));
        if forall|n: Seq<char>| m0.dom().contains(n) ==> !qualifies(n) {
            if sel.len() > 0 {
                let x = sel[0];
                assert(qualifies(x));
                let w = choose|w: int| 0 <= w < names_views.len() && names_views[w] == x;
                assert(names_views[w] == x);
                assert(m0.dom().contains(x));
                assert(false);
            }
            assert(sel.len() == 0);
            assert(well_formed_count(m0, sel) == 0);
            assert(units.len() == 0);
            assert(units =~= Seq::<ConvertedUnit>::empty());
            assert(output@ == old(output)@);
            assert(map@ =~= Seq::<(Seq<char>, Seq<char>)>::empty());
        }
    }
    Ok(map)
}


/// Merging one unit never removes a registry entry, never moves an existing
/// title, and leaves an entry whole unless some produced schema carries its
/// title.
proof fn lemma_registry_after_preserves(
    r0: Seq<(Seq<char>, openapiv3::Schema)>,
    ss: Seq<openapiv3::Schema>,
)
    ensures
        registry_after(r0, ss).len() >= r0.len(),
        forall|i: int| 0 <= i < r0.len() ==> #[trigger] registry_after(r0, ss)[i].0 == r0[i].0,
        forall|i: int|
            0 <= i < r0.len() && (forall|l: int|
                0 <= l < ss.len() ==> schema_title_of(#[trigger] ss[l]) != Some(r0[i].0))
                ==> #[trigger] registry_after(r0, ss)[i] == r0[i],
    decreases ss.len(),
{
    if ss.len() > 0 {
        let front = registry_after(r0, ss.drop_last());
        lemma_registry_after_preserves(r0, ss.drop_last());
        assert forall|l: int| 0 <= l < ss.drop_last().len() implies #[trigger] ss.drop_last()[l]
            == ss[l] by {}
        match schema_title_of(ss.last()) {
            Some(t) => {
                if t.len() > 0 {
                    crate::registry::lemma_upsert_preserves(front, t, ss.last());
                }
            },
            None => {},
        }
    }
}

/// A run of merged units only adds entries or overwrites values: every title
/// of the starting registry keeps its position, and its whole entry unless
/// some unit's schema carries that title.
pub proof fn lemma_units_preserve_entries(
    r0: Seq<(Seq<char>, openapiv3::Schema)>,
    us: Seq<ConvertedUnit>,
)
    ensures
        registry_after_units(r0, us).len() >= r0.len(),
        forall|i: int|
            0 <= i < r0.len() ==> #[trigger] registry_after_units(r0, us)[i].0 == r0[i].0,
        forall|i: int|
            0 <= i < r0.len() && (forall|j: int, l: int|
                0 <= j < us.len() && 0 <= l < us[j].schemas@.len() ==> schema_title_of(
                    #[trigger] us[j].schemas@[l],
                ) != Some(r0[i].0)) ==> #[trigger] registry_after_units(r0, us)[i] == r0[i],
    decreases us.len(),
{
    if us.len() > 0 {
        let front = registry_after_units(r0, us.drop_last());
        lemma_units_preserve_entries(r0, us.drop_last());
        lemma_registry_after_preserves(front, us.last().schemas@);
        assert forall|i: int|
            0 <= i < r0.len() && (forall|j: int, l: int|
                0 <= j < us.len() && 0 <= l < us[j].schemas@.len() ==> schema_title_of(
                    #[trigger] us[j].schemas@[l],
                ) != Some(r0[i].0)) implies #[trigger] registry_after_units(r0, us)[i]
            == r0[i] by {
            assert forall|j: int, l: int|
                0 <= j < us.drop_last().len() && 0 <= l
                    < us.drop_last()[j].schemas@.len() implies schema_title_of(
                #[trigger] us.drop_last()[j].schemas@[l],
            ) != Some(r0[i].0) by {
                assert(us.drop_last()[j] == us[j]);
            }
            assert(front[i] == r0[i]);
            assert forall|l: int| 0 <= l < us.last().schemas@.len() implies schema_title_of(
                #[trigger] us.last().schemas@[l],
            ) != Some(front[i].0) by {
                assert(us.last() == us[us.len() - 1]);
            }
        }
    }
}

/// Two duplicate-free listings of the same names — the shape an archive's
/// central directory gives — select the same files in the same order.
pub proof fn lemma_listing_determines_selection(a: Seq<Seq<char>>, b: Seq<Seq<char>>)
    requires
        a.no_duplicates(),
        b.no_duplicates(),
        forall|x: Seq<char>| a.contains(x) == b.contains(x),
    ensures
        selected_names(a) == selected_names(b),
{
    broadcast use vstd::seq_lib::group_to_multiset_ensures;
    broadcast use vstd::multiset::group_multiset_axioms;

    a.lemma_multiset_has_no_duplicates();
    b.lemma_multiset_has_no_duplicates();
    assert(a.to_multiset() =~= b.to_multiset()) by {
        assert forall|x: Seq<char>|
            a.to_multiset().count(x) == b.to_multiset().count(x) by {
            if a.contains(x) {
                assert(a.to_multiset().count(x) == 1);
                assert(b.to_multiset().count(x) == 1);
            } else {
                assert(a.to_multiset().count(x) == 0);
                assert(b.to_multiset().count(x) == 0);
            }
        }
    }
    lemma_selection_deterministic(a, b);
}

/// All keys in a code-ordered list stay at or below a bound that also bounds
/// the newcomer.
proof fn lemma_insert_by_code_bounded(acc: Seq<TaggedDoc>, x: TaggedDoc, c: Seq<char>)
    requires
        forall|k: int| 0 <= k < acc.len() ==> lex_leq(tag_key(#[trigger] acc[k]), c),
        lex_leq(tag_key(x), c),
    ensures
        forall|k: int|
            0 <= k < insert_by_code(acc, x).len() ==> lex_leq(
                tag_key(#[trigger] insert_by_code(acc, x)[k]),
                c,
            ),
    decreases acc.len(),
{
    if acc.len() == 0 {
    } else if lex_leq(tag_key(acc.last()), tag_key(x)) {
    } else {
        let dl = acc.drop_last();
        assert forall|k: int| 0 <= k < dl.len() implies lex_leq(tag_key(#[trigger] dl[k]), c) by {
            assert(dl[k] == acc[k]);
        }
        lemma_insert_by_code_bounded(dl, x, c);
        let t = insert_by_code(dl, x);
        assert forall|k: int|
            0 <= k < t.push(acc.last()).len() implies lex_leq(
                tag_key(#[trigger] t.push(acc.last())[k]),
                c,
            ) by {
            if k < t.len() {
                assert(t.push(acc.last())[k] == t[k]);
            } else {
                assert(t.push(acc.last())[k] == acc.last());
                assert(lex_leq(tag_key(acc[acc.len() - 1]), c));
            }
        }
    }
}

/// The stable insert keeps a code-sorted list code-sorted.
proof fn lemma_insert_by_code_sorted(acc: Seq<TaggedDoc>, x: TaggedDoc)
    requires
        forall|i: int, j: int|
            0 <= i < j < acc.len() ==> lex_leq(tag_key(#[trigger] acc[i]), tag_key(#[trigger] acc[j])),
    ensures
        forall|i: int, j: int|
            0 <= i < j < insert_by_code(acc, x).len() ==> lex_leq(
                tag_key(#[trigger] insert_by_code(acc, x)[i]),
                tag_key(#[trigger] insert_by_code(acc, x)[j]),
            ),
    decreases acc.len(),
{
    if acc.len() == 0 {
    } else if lex_leq(tag_key(acc.last()), tag_key(x)) {
        let t = acc.push(x);
        assert forall|i: int, j: int| 0 <= i < j < t.len() implies lex_leq(
            tag_key(t[i]),
            tag_key(t[j]),
        ) by {
            if j < acc.len() {
                assert(lex_leq(tag_key(acc[i]), tag_key(acc[j])));
            } else {
                assert(t[j] == x);
                if i < acc.len() - 1 {
                    assert(lex_leq(tag_key(acc[i]), tag_key(acc[acc.len() - 1])));
                    lemma_lex_trans(tag_key(acc[i]), tag_key(acc.last()), tag_key(x));
                }
            }
        }
    } else {
        let dl = acc.drop_last();
        assert forall|i: int, j: int| 0 <= i < j < dl.len() implies lex_leq(
            tag_key(#[trigger] dl[i]),
            tag_key(#[trigger] dl[j]),
        ) by {
            assert(dl[i] == acc[i]);
            assert(dl[j] == acc[j]);
        }
        lemma_insert_by_code_sorted(dl, x);
        lemma_lex_connected(tag_key(acc.last()), tag_key(x));
        assert forall|k: int| 0 <= k < dl.len() implies lex_leq(
            tag_key(#[trigger] dl[k]),
            tag_key(acc.last()),
        ) by {
            assert(dl[k] == acc[k]);
            assert(lex_leq(tag_key(acc[k]), tag_key(acc[acc.len() - 1])));
        }
        lemma_insert_by_code_bounded(dl, x, tag_key(acc.last()));
        let t = insert_by_code(dl, x);
        assert forall|i: int, j: int| 0 <= i < j < t.push(acc.last()).len() implies lex_leq(
            tag_key(t.push(acc.last())[i]),
            tag_key(t.push(acc.last())[j]),
        ) by {
            if j < t.len() {
                assert(t.push(acc.last())[i] == t[i]);
                assert(t.push(acc.last())[j] == t[j]);
                assert(lex_leq(tag_key(t[i]), tag_key(t[j])));
            } else {
                assert(t.push(acc.last())[i] == t[i]);
                assert(t.push(acc.last())[j] == acc.last());
                assert(lex_leq(tag_key(t[i]), tag_key(acc.last())));
            }
        }
    }
}

/// The harvest's processing order is grouped: namespace codes ascend, with
/// untagged documents first.
pub proof fn lemma_order_by_code_sorted(s: Seq<TaggedDoc>)
    ensures
        forall|i: int, j: int|
            0 <= i < j < order_by_code(s).len() ==> lex_leq(
                tag_key(#[trigger] order_by_code(s)[i]),
                tag_key(#[trigger] order_by_code(s)[j]),
            ),
    decreases s.len(),
{
    if s.len() > 0 {
        lemma_order_by_code_sorted(s.drop_last());
        lemma_insert_by_code_sorted(order_by_code(s.drop_last()), s.last());
    }
}

} // verus!
