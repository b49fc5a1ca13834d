//! Namespace canonicalization: fixed tables from known namespace URIs to
//! short, stable codes, with two distinct fallback policies.  Naming a
//! documented type falls back to the unprefixed name (identity); tagging a
//! schema file falls back to the platform's own code.

use vstd::prelude::*;
use crate::text::str_eq;

verus! {

/// First value paired with `key`, scanning the table front to back.
pub open spec fn table_lookup(t: Seq<(Seq<char>, Seq<char>)>, key: Seq<char>) -> Option<Seq<char>>
    decreases t.len(),
{
    if t.len() == 0 {
        None
    } else if t[0].0 == key {
        Some(t[0].1)
    } else {
        table_lookup(t.drop_first(), key)
    }
}

/// The namespace-URI → prefix table used when naming a documented type.
pub open spec fn prefix_table() -> Seq<(Seq<char>, Seq<char>)> {
    seq![
        ("http://schemas.dmtf.org/ovf/envelope/1"@, "ovf"@),
        ("http://schemas.dmtf.org/ovf/environment/1"@, "ovfenv"@),
        ("http://schemas.dmtf.org/wbem/wscim/1/common"@, "cim"@),
        ("http://www.vmware.com/vcloud/meta"@, "meta"@),
        ("http://www.vmware.com/schema/ovf"@, "vmw"@),
        ("http://www.vmware.com/vcloud/extension/v1.5"@, "vcloud-ext"@),
        ("http://www.vmware.com/vcloud/versions"@, "versioning"@),
        ("http://www.vmware.com/vcloud/v1.5"@, "vcloud"@),
    ]
}

/// The namespace-URI → code table used when tagging a schema file.
pub open spec fn code_table() -> Seq<(Seq<char>, Seq<char>)> {
    seq![
        ("http://schemas.dmtf.org/ovf/envelope/1"@, "ovf"@),
        ("http://schemas.dmtf.org/ovf/environment/1"@, "ovfenv"@),
        (
            "http://schemas.dmtf.org/wbem/wscim/1/cim-schema/2/CIM_ResourceAllocationSettingData"@,
            "rasd"@,
        ),
        (
            "http://schemas.dmtf.org/wbem/wscim/1/cim-schema/2/CIM_VirtualSystemSettingData"@,
            "vssd"@,
        ),
        ("http://schemas.dmtf.org/wbem/wscim/1/common"@, "cim"@),
        ("http://www.vmware.com/vcloud/meta"@, "meta"@),
        ("http://www.vmware.com/schema/ovf"@, "vmw"@),
        ("http://www.vmware.com/vcloud/extension/v1.5"@, "vcloud-ext"@),
        ("http://www.vmware.com/vcloud/v1.5"@, "vcloud"@),
        ("http://www.vmware.com/vcloud/versions"@, "versioning"@),
    ]
}

/// The code a schema file is tagged with when its namespace is unknown.
pub open spec fn default_code() -> Seq<char> {
    "vcloud"@
}

/// Identity policy: a known URI contributes `prefix_`, an unknown one leaves
/// the name unchanged.
pub open spec fn prefixed_type_name(t: Seq<char>, ns: Seq<char>) -> Seq<char> {
    match table_lookup(prefix_table(), ns) {
        Some(p) => p + "_"@ + t,
        None => t,
    }
}

/// Default policy: a known URI maps to its code, an unknown one to the
/// platform's own code.
pub open spec fn schema_code_spec(ns: Seq<char>) -> Seq<char> {
    match table_lookup(code_table(), ns) {
        Some(c) => c,
        None => default_code(),
    }
}

/// The view pairs of an executable table.
pub open spec fn pairs_view(v: Vec<(&'static str, &'static str)>) -> Seq<(Seq<char>, Seq<char>)> {
    Seq::new(v@.len(), |i: int| (v@[i].0@, v@[i].1@))
}

fn prefix_pairs() -> (r: Vec<(&'static str, &'static str)>)
    ensures
        pairs_view(r) == prefix_table(),
{
    let mut r: Vec<(&'static str, &'static str)> = Vec::new();
    r.push(("http://schemas.dmtf.org/ovf/envelope/1", "ovf"));
    r.push(("http://schemas.dmtf.org/ovf/environment/1", "ovfenv"));
    r.push(("http://schemas.dmtf.org/wbem/wscim/1/common", "cim"));
    r.push(("http://www.vmware.com/vcloud/meta", "meta"));
    r.push(("http://www.vmware.com/schema/ovf", "vmw"));
    r.push(("http://www.vmware.com/vcloud/extension/v1.5", "vcloud-ext"));
    r.push(("http://www.vmware.com/vcloud/versions", "versioning"));
    r.push(("http://www.vmware.com/vcloud/v1.5", "vcloud"));
    proof {
        assert(pairs_view(r) =~= prefix_table());
    }
    r
}

fn code_pairs() -> (r: Vec<(&'static str, &'static str)>)
    ensures
        pairs_view(r) == code_table(),
{
    let mut r: Vec<(&'static str, &'static str)> = Vec::new();
    r.push(("http://schemas.dmtf.org/ovf/envelope/1", "ovf"));
    r.push(("http://schemas.dmtf.org/ovf/environment/1", "ovfenv"));
    r.push((
        "http://schemas.dmtf.org/wbem/wscim/1/cim-schema/2/CIM_ResourceAllocationSettingData",
        "rasd",
    ));
    r.push((
        "http://schemas.dmtf.org/wbem/wscim/1/cim-schema/2/CIM_VirtualSystemSettingData",
        "vssd",
    ));
    r.push(("http://schemas.dmtf.org/wbem/wscim/1/common", "cim"));
    r.push(("http://www.vmware.com/vcloud/meta", "meta"));
    r.push(("http://www.vmware.com/schema/ovf", "vmw"));
    r.push(("http://www.vmware.com/vcloud/extension/v1.5", "vcloud-ext"));
    r.push(("http://www.vmware.com/vcloud/v1.5", "vcloud"));
    r.push(("http://www.vmware.com/vcloud/versions", "versioning"));
    proof {
        assert(pairs_view(r) =~= code_table());
    }
    r
}

fn lookup_in(pairs: &Vec<(&'static str, &'static str)>, key: &str) -> (r: Option<&'static str>)
    ensures
        match r {
            Some(v) => table_lookup(pairs_view(*pairs), key@) == Some(v@),
            None => table_lookup(pairs_view(*pairs), key@) is None,
        },
{
    let n = pairs.len();
    let ghost pv = pairs_view(*pairs);
    let mut i: usize = 0;
    proof {
        assert(pv.skip(0) =~= pv);
    }
    while i < n
        invariant
            n == pv.len(),
            pv == pairs_view(*pairs),
            i <= n,
            table_lookup(pv.skip(i as int), key@) == table_lookup(pv, key@),
        decreases n - i,
    {
        let (k, v) = pairs[i];
        if str_eq(k, key) {
            proof {
                assert(pv.skip(i as int)[0] == pv[i as int]);
            }
            return Some(v);
        }
        proof {
            assert(pv.skip(i as int)[0] == pv[i as int]);
            assert(pv.skip(i as int).drop_first() =~= pv.skip(i as int + 1));
        }
        i += 1;
    }
    None
}

/// Canonicalize for type naming: prefix with the namespace's short code and an
/// underscore, or return the name unchanged if the namespace is unknown.
pub fn type_prefixed(t: String, namespace: &str) -> (r: String)
    ensures
        r@ == prefixed_type_name(t@, namespace@),
{
    let pairs = prefix_pairs();
    match lookup_in(&pairs, namespace) {
        Some(p) => {
            let mut out = p.to_owned();
            out.append("_");
            out.append(t.as_str());
            out
        },
        None => t,
    }
}

/// Canonicalize for schema tagging: a known URI's code, else the default code.
pub fn schema_code(namespace: &str) -> (r: String)
    ensures
        r@ == schema_code_spec(namespace@),
{
    let pairs = code_pairs();
    match lookup_in(&pairs, namespace) {
        Some(c) => c.to_owned(),
        None => "vcloud".to_owned(),
    }
}

/// A key whose earlier table entries all differ from it is looked up at its
/// own row.
proof fn lemma_lookup_first(t: Seq<(Seq<char>, Seq<char>)>, key: Seq<char>, i: int)
    requires
        0 <= i < t.len(),
        t[i].0 == key,
        forall|j: int| 0 <= j < i ==> t[j].0 != key,
    ensures
        table_lookup(t, key) == Some(t[i].1),
    decreases i,
{
    if i > 0 {
        lemma_lookup_first(t.drop_first(), key, i - 1);
    }
}

/// Every known namespace URI contributes exactly its table prefix to a type
/// name; a namespace outside the table leaves the name unchanged.
pub proof fn lemma_prefix_policy(t: Seq<char>, i: int)
    requires
        0 <= i < prefix_table().len(),
    ensures
        prefixed_type_name(t, prefix_table()[i].0) == prefix_table()[i].1 + "_"@ + t,
{
    broadcast use vstd::string::group_string_axioms;

    reveal_strlit("http://schemas.dmtf.org/ovf/envelope/1");
    reveal_strlit("http://schemas.dmtf.org/ovf/environment/1");
    reveal_strlit("http://schemas.dmtf.org/wbem/wscim/1/common");
    reveal_strlit("http://www.vmware.com/vcloud/meta");
    reveal_strlit("http://www.vmware.com/schema/ovf");
    reveal_strlit("http://www.vmware.com/vcloud/extension/v1.5");
    reveal_strlit("http://www.vmware.com/vcloud/versions");
    reveal_strlit("http://www.vmware.com/vcloud/v1.5");
    assert("http://schemas.dmtf.org/ovf/envelope/1"@.len() == 38);
    assert("http://schemas.dmtf.org/ovf/environment/1"@.len() == 41);
    assert("http://schemas.dmtf.org/wbem/wscim/1/common"@.len() == 43);
    assert("http://www.vmware.com/vcloud/meta"@.len() == 33);
    assert("http://www.vmware.com/schema/ovf"@.len() == 32);
    assert("http://www.vmware.com/vcloud/extension/v1.5"@.len() == 43);
    assert("http://www.vmware.com/vcloud/versions"@.len() == 37);
    assert("http://www.vmware.com/vcloud/v1.5"@.len() == 33);
    assert("http://schemas.dmtf.org/wbem/wscim/1/common"@[7] == 's');
    assert("http://www.vmware.com/vcloud/extension/v1.5"@[7] == 'w');
    assert("http://www.vmware.com/vcloud/meta"@[29] == 'm');
    assert("http://www.vmware.com/vcloud/v1.5"@[29] == 'v');
    let t0 = prefix_table();
    let key = t0[i].0;
    if i == 0 {

    } else if i == 1 {
        assert("http://schemas.dmtf.org/ovf/envelope/1"@ != "http://schemas.dmtf.org/ovf/environment/1"@);
    } else if i == 2 {
        assert("http://schemas.dmtf.org/ovf/envelope/1"@ != "http://schemas.dmtf.org/wbem/wscim/1/common"@);
        assert("http://schemas.dmtf.org/ovf/environment/1"@ != "http://schemas.dmtf.org/wbem/wscim/1/common"@);
    } else if i == 3 {
        assert("http://schemas.dmtf.org/ovf/envelope/1"@ != "http://www.vmware.com/vcloud/meta"@);
        assert("http://schemas.dmtf.org/ovf/environment/1"@ != "http://www.vmware.com/vcloud/meta"@);
        assert("http://schemas.dmtf.org/wbem/wscim/1/common"@ != "http://www.vmware.com/vcloud/meta"@);
    } else if i == 4 {
        assert("http://schemas.dmtf.org/ovf/envelope/1"@ != "http://www.vmware.com/schema/ovf"@);
        assert("http://schemas.dmtf.org/ovf/environment/1"@ != "http://www.vmware.com/schema/ovf"@);
        assert("http://schemas.dmtf.org/wbem/wscim/1/common"@ != "http://www.vmware.com/schema/ovf"@);
        assert("http://www.vmware.com/vcloud/meta"@ != "http://www.vmware.com/schema/ovf"@);
    } else if i == 5 {
        assert("http://schemas.dmtf.org/ovf/envelope/1"@ != "http://www.vmware.com/vcloud/extension/v1.5"@);
        assert("http://schemas.dmtf.org/ovf/environment/1"@ != "http://www.vmware.com/vcloud/extension/v1.5"@);
        assert("http://schemas.dmtf.org/wbem/wscim/1/common"@ != "http://www.vmware.com/vcloud/extension/v1.5"@);
        assert("http://www.vmware.com/vcloud/meta"@ != "http://www.vmware.com/vcloud/extension/v1.5"@);
        assert("http://www.vmware.com/schema/ovf"@ != "http://www.vmware.com/vcloud/extension/v1.5"@);
    } else if i == 6 {
        assert("http://schemas.dmtf.org/ovf/envelope/1"@ != "http://www.vmware.com/vcloud/versions"@);
        assert("http://schemas.dmtf.org/ovf/environment/1"@ != "http://www.vmware.com/vcloud/versions"@);
        assert("http://schemas.dmtf.org/wbem/wscim/1/common"@ != "http://www.vmware.com/vcloud/versions"@);
        assert("http://www.vmware.com/vcloud/meta"@ != "http://www.vmware.com/vcloud/versions"@);
        assert("http://www.vmware.com/schema/ovf"@ != "http://www.vmware.com/vcloud/versions"@);
        assert("http://www.vmware.com/vcloud/extension/v1.5"@ != "http://www.vmware.com/vcloud/versions"@);
    } else if i == 7 {
        assert("http://schemas.dmtf.org/ovf/envelope/1"@ != "http://www.vmware.com/vcloud/v1.5"@);
        assert("http://schemas.dmtf.org/ovf/environment/1"@ != "http://www.vmware.com/vcloud/v1.5"@);
        assert("http://schemas.dmtf.org/wbem/wscim/1/common"@ != "http://www.vmware.com/vcloud/v1.5"@);
        assert("http://www.vmware.com/vcloud/meta"@ != "http://www.vmware.com/vcloud/v1.5"@);
        assert("http://www.vmware.com/schema/ovf"@ != "http://www.vmware.com/vcloud/v1.5"@);
        assert("http://www.vmware.com/vcloud/extension/v1.5"@ != "http://www.vmware.com/vcloud/v1.5"@);
        assert("http://www.vmware.com/vcloud/versions"@ != "http://www.vmware.com/vcloud/v1.5"@);
    }
    assert(forall|j: int| 0 <= j < i ==> t0[j].0 != key);
    lemma_lookup_first(t0, key, i);
}

/// A namespace outside the prefix table never changes the type name.
pub proof fn lemma_unknown_unprefixed(t: Seq<char>, ns: Seq<char>)
    requires
        table_lookup(prefix_table(), ns) is None,
    ensures
        prefixed_type_name(t, ns) == t,
{
}

} // verus!
