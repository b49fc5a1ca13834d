//! One documented API type, extracted from a parsed documentation detail
//! page: a title plus an ordered list of labeled values.

use vstd::prelude::*;
use crate::namespaces::{prefixed_type_name, type_prefixed};
use crate::strset::{dedup, StringSet};
use crate::text::{split_on, split_sub, str_trim, trim_spec, vec_views};

verus! {

/// The ghost shape of one labeled value: plain text, or markup whose visible
/// inner text the page parser has already rendered.
pub enum DlvView {
    Text(Seq<char>),
    Markup(Seq<char>),
}

/// One labeled value of a detail page.
#[derive(Debug, PartialEq)]
pub enum DefinitionListValue {
    Text(String),
    Markup(String),
}

impl View for DefinitionListValue {
    type V = DlvView;

    open spec fn view(&self) -> DlvView {
        match self {
            DefinitionListValue::Text(t) => DlvView::Text(t@),
            DefinitionListValue::Markup(m) => DlvView::Markup(m@),
        }
    }
}

/// The value's text when it is plain text, nothing when it is markup.
pub open spec fn dlv_text(v: DlvView) -> Option<Seq<char>> {
    match v {
        DlvView::Text(t) => Some(t),
        DlvView::Markup(_) => None,
    }
}

/// The value's visible text, whichever shape it has.
pub open spec fn dlv_inner(v: DlvView) -> Seq<char> {
    match v {
        DlvView::Text(t) => t,
        DlvView::Markup(m) => m,
    }
}

impl DefinitionListValue {
    /// The plain text of this value, if it is plain text.
    pub fn as_text(&self) -> (r: Option<&String>)
        ensures
            match r {
                Some(t) => dlv_text(self@) == Some(t@),
                None => dlv_text(self@) is None,
            },
    {
        match self {
            DefinitionListValue::Text(t) => Some(t),
            DefinitionListValue::Markup(_) => None,
        }
    }

    /// The rendered inner text of this value.
    pub fn to_inner_text(&self) -> (r: String)
        ensures
            r@ == dlv_inner(self@),
    {
        match self {
            DefinitionListValue::Text(t) => t.clone(),
            DefinitionListValue::Markup(m) => m.clone(),
        }
    }
}

/// The ordered label → value list of a detail page.
#[derive(Debug, PartialEq)]
pub struct DefinitionList {
    items: Vec<(String, DefinitionListValue)>,
}

impl View for DefinitionList {
    type V = Seq<(Seq<char>, DlvView)>;

    closed spec fn view(&self) -> Seq<(Seq<char>, DlvView)> {
        Seq::new(self.items@.len(), |i: int| (self.items@[i].0@, self.items@[i].1@))
    }
}

/// The first value labeled `label`, scanning front to back.
pub open spec fn dl_find(dl: Seq<(Seq<char>, DlvView)>, label: Seq<char>) -> Option<DlvView>
    decreases dl.len(),
{
    if dl.len() == 0 {
        None
    } else if dl[0].0 == label {
        Some(dl[0].1)
    } else {
        dl_find(dl.drop_first(), label)
    }
}

impl DefinitionList {
    pub fn new() -> (r: Self)
        ensures
            r@ == Seq::<(Seq<char>, DlvView)>::empty(),
    {
        let r = DefinitionList { items: Vec::new() };
        proof {
            assert(r@ =~= Seq::<(Seq<char>, DlvView)>::empty());
        }
        r
    }

    /// Append one labeled value at the end of the list.
    pub fn add(&mut self, label: String, value: DefinitionListValue)
        ensures
            final(self)@ == old(self)@.push((label@, value@)),
    {
        let ghost pre = self@;
        let ghost lv = label@;
        let ghost vv = value@;
        self.items.push((label, value));
        proof {
            assert(self@ =~= pre.push((lv, vv)));
        }
    }

    /// The first value under `label`, if any.
    pub fn find(&self, label: &str) -> (r: Option<&DefinitionListValue>)
        ensures
            match r {
                Some(v) => dl_find(self@, label@) == Some(v@),
                None => dl_find(self@, label@) is None,
            },
    {
        let n = self.items.len();
        let ghost dv = self@;
        let mut i: usize = 0;
        proof {
            assert(dv.skip(0) =~= dv);
        }
        while i < n
            invariant
                n == dv.len(),
                dv == self@,
                i <= n,
                dl_find(dv.skip(i as int), label@) == dl_find(dv, label@),
            decreases n - i,
        {
            proof {
                assert(dv.skip(i as int)[0] == dv[i as int]);
                assert(dv.skip(i as int).drop_first() =~= dv.skip(i as int + 1));
            }
            if crate::text::str_eq(self.items[i].0.as_str(), label) {
                return Some(&self.items[i].1);
            }
            i += 1;
        }
        None
    }
}

/// One parsed documentation detail page: its title and its labeled values.
#[derive(Debug, PartialEq)]
pub struct DetailPage {
    pub h1: String,
    pub definition_list: DefinitionList,
}

/// A failure while turning raw markup into a detail page, reported by the
/// page-parsing collaborator and passed through unchanged.
#[derive(Debug, PartialEq)]
pub enum TypeParseError {
    DetailPageParseError(String),
}

impl TypeParseError {
    /// The error's display text.
    pub fn describe(&self) -> (r: String)
        ensures
            match self {
                TypeParseError::DetailPageParseError(m) => r@ == "Detail Page Parse Error `"@ + m@
                    + "`"@,
            },
    {
        match self {
            TypeParseError::DetailPageParseError(m) => {
                let mut out = "Detail Page Parse Error `".to_owned();
                out.append(m.as_str());
                out.append("`");
                out
            },
        }
    }
}

/// Trim every piece.
pub open spec fn trim_all(ps: Seq<Seq<char>>) -> Seq<Seq<char>> {
    Seq::new(ps.len(), |i: int| trim_spec(ps[i]))
}

/// A piece worth keeping in an element or media-type set: not empty, not the
/// literal placeholder.
pub open spec fn keep_piece(p: Seq<char>) -> bool {
    p.len() > 0 && p != "None"@
}

/// The kept pieces, in order.
pub open spec fn kept_pieces(ps: Seq<Seq<char>>) -> Seq<Seq<char>>
    decreases ps.len(),
{
    if ps.len() == 0 {
        Seq::<Seq<char>>::empty()
    } else {
        let front = kept_pieces(ps.drop_last());
        if keep_piece(ps.last()) {
            front.push(ps.last())
        } else {
            front
        }
    }
}

/// The value that the element list is read from: `Element:` wins over
/// `Elements:`.
pub open spec fn elements_source(dl: Seq<(Seq<char>, DlvView)>) -> Option<DlvView> {
    match dl_find(dl, "Element:"@) {
        Some(v) => Some(v),
        None => dl_find(dl, "Elements:"@),
    }
}

/// The element names: the chosen value's text split on commas, trimmed,
/// empty and placeholder pieces dropped, first occurrences kept in order;
/// empty when no such label or no plain text.
pub open spec fn elements_spec(dl: Seq<(Seq<char>, DlvView)>) -> Seq<Seq<char>> {
    match elements_source(dl) {
        Some(v) => match dlv_text(v) {
            Some(t) => dedup(kept_pieces(trim_all(split_sub(t, ","@)))),
            None => Seq::<Seq<char>>::empty(),
        },
        None => Seq::<Seq<char>>::empty(),
    }
}

/// The raw namespace URI, empty when absent.
pub open spec fn namespace_spec(dl: Seq<(Seq<char>, DlvView)>) -> Seq<char> {
    match dl_find(dl, "Namespace:"@) {
        Some(v) => dlv_inner(v),
        None => Seq::<char>::empty(),
    }
}

/// The canonical type name: the `Type:` text under the namespace's prefixing
/// policy, or the page title when no `Type:` label exists.
pub open spec fn type_name_spec(dl: Seq<(Seq<char>, DlvView)>, title: Seq<char>) -> Seq<char> {
    match dl_find(dl, "Type:"@) {
        Some(v) => prefixed_type_name(dlv_inner(v), namespace_spec(dl)),
        None => title,
    }
}

/// The free-text description, empty when absent or not plain text.
pub open spec fn description_spec(dl: Seq<(Seq<char>, DlvView)>) -> Seq<char> {
    match dl_find(dl, "Description:"@) {
        Some(v) => match dlv_text(v) {
            Some(t) => t,
            None => Seq::<char>::empty(),
        },
        None => Seq::<char>::empty(),
    }
}

/// The media-type strings of a raw `Media type(s):` text: split on the
/// literal `<br>`, dropping empty pieces and the placeholder.
pub open spec fn mime_pieces(t: Seq<char>) -> Seq<Seq<char>> {
    kept_pieces(split_sub(t, "<br>"@))
}

/// The media types: absent when the label is absent or not plain text,
/// otherwise the unique kept pieces in order of first appearance.
pub open spec fn media_types_spec(dl: Seq<(Seq<char>, DlvView)>) -> Option<Seq<Seq<char>>> {
    match dl_find(dl, "Media type(s):"@) {
        Some(v) => match dlv_text(v) {
            Some(t) => Some(dedup(mime_pieces(t))),
            None => None,
        },
        None => None,
    }
}

/// The raw parent-type text, empty when absent.
pub open spec fn extends_spec(dl: Seq<(Seq<char>, DlvView)>) -> Seq<char> {
    match dl_find(dl, "Extends:"@) {
        Some(v) => dlv_inner(v),
        None => Seq::<char>::empty(),
    }
}

/// The view of an optional string set.
pub open spec fn opt_set_view(o: Option<StringSet>) -> Option<Seq<Seq<char>>> {
    match o {
        Some(s) => Some(s@),
        None => None,
    }
}

/// Split a raw media-types text on the literal `<br>` and keep the pieces
/// that name a media type: not empty and not the placeholder `None`.
pub fn html_to_mimes(html: &str) -> (r: Vec<String>)
    ensures
        vec_views(r) == mime_pieces(html@),
{
    proof {
        reveal_strlit("<br>");
    }
    let pieces = split_on(html, "<br>");
    let ghost pv = vec_views(pieces);
    let n = pieces.len();
    let mut r: Vec<String> = Vec::new();
    let mut i: usize = 0;
    proof {
        assert(pv.take(0) =~= Seq::<Seq<char>>::empty());
        assert(vec_views(r) =~= kept_pieces(pv.take(0)));
    }
    while i < n
        invariant
            n == pieces@.len(),
            pv == vec_views(pieces),
            i <= n,
            vec_views(r) == kept_pieces(pv.take(i as int)),
        decreases n - i,
    {
        let p = &pieces[i];
        let keep = !(p.as_str().unicode_len() == 0 || crate::text::str_eq(p.as_str(), "None"));
        proof {
            let t = pv.take(i as int + 1);
            assert(t.drop_last() =~= pv.take(i as int));
            assert(t.last() == pv[i as int]);
        }
        if keep {
            let ghost pre = vec_views(r);
            r.push(p.clone());
            proof {
                assert(vec_views(r) =~= pre.push(pv[i as int]));
            }
        }
        i += 1;
    }
    proof {
        assert(pv.take(n as int) =~= pv);
    }
    r
}

/// One documented API type.  `name` always equals `type_id`; `elements`
/// and `media_types` hold no empty or placeholder entries; `media_types` is
/// absent, not merely empty, when the page has no `Media type(s):` field.
#[derive(Debug, PartialEq)]
pub struct Type {
    pub type_id: String,
    pub name: String,
    pub elements: StringSet,
    pub namespace: String,
    pub description: String,
    pub media_types: Option<StringSet>,
    pub extends: String,
}

impl Type {
    /// Extract the canonical record from one parsed detail page.  The
    /// extraction itself never fails; the error type exists for callers that
    /// wrap the page-parsing collaborator's failures.
    pub fn try_from(p: DetailPage) -> (r: Result<Type, TypeParseError>)
        ensures
            r matches Ok(t) && {
                let dl = p.definition_list@;
                &&& t.type_id@ == type_name_spec(dl, p.h1@)
                &&& t.name@ == t.type_id@
                &&& t.elements@ == elements_spec(dl)
                &&& t.namespace@ == namespace_spec(dl)
                &&& t.description@ == description_spec(dl)
                &&& opt_set_view(t.media_types) == media_types_spec(dl)
                &&& t.extends@ == extends_spec(dl)
            },
    {
        let dl = &p.definition_list;
        let elements_value = match dl.find("Element:") {
            Some(v) => Some(v),
            None => dl.find("Elements:"),
        };
        let elements = match elements_value {
            Some(v) => match v.as_text() {
                Some(t) => {
                    proof {
                        reveal_strlit(",");
                    }
                    let pieces = split_on(t.as_str(), ",");
                    let ghost pvs = vec_views(pieces);
                    let n = pieces.len();
                    let mut trimmed: Vec<String> = Vec::new();
                    let mut i: usize = 0;
                    while i < n
                        invariant
                            n == pieces@.len(),
                            pvs == vec_views(pieces),
                            i <= n,
                            vec_views(trimmed) == kept_pieces(trim_all(pvs.take(i as int))),
                        decreases n - i,
                    {
                        let piece = str_trim(pieces[i].as_str());
                        let keep = !(piece.as_str().unicode_len() == 0 || crate::text::str_eq(
                            piece.as_str(),
                            "None",
                        ));
                        proof {
                            let ta = trim_all(pvs.take(i as int + 1));
                            assert(ta.drop_last() =~= trim_all(pvs.take(i as int)));
                            assert(ta.last() == trim_spec(pvs[i as int]));
                        }
                        if keep {
                            let ghost pre = vec_views(trimmed);
                            trimmed.push(piece);
                            proof {
                                assert(vec_views(trimmed) =~= pre.push(trim_spec(pvs[i as int])));
                            }
                        }
                        i += 1;
                    }
                    proof {
                        assert(pvs.take(n as int) =~= pvs);
                        assert(trim_all(pvs) =~= trim_all(split_sub(t@, ","@)));
                    }
                    StringSet::collect_unique(trimmed)
                },
                None => StringSet::new(),
            },
            None => StringSet::new(),
        };
        let namespace = match dl.find("Namespace:") {
            Some(v) => v.to_inner_text(),
            None => String::new(),
        };
        let type_id = match dl.find("Type:") {
            Some(v) => type_prefixed(v.to_inner_text(), namespace.as_str()),
            None => p.h1.clone(),
        };
        let description = match dl.find("Description:") {
            Some(v) => match v.as_text() {
                Some(t) => t.clone(),
                None => String::new(),
            },
            None => String::new(),
        };
        let media_types = match dl.find("Media type(s):") {
            Some(v) => match v.as_text() {
                Some(t) => Some(StringSet::collect_unique(html_to_mimes(t.as_str()))),
                None => None,
            },
            None => None,
        };
        let extends = match dl.find("Extends:") {
            Some(v) => v.to_inner_text(),
            None => String::new(),
        };
        let name = type_id.clone();
        Ok(Type { type_id, name, elements, namespace, description, media_types, extends })
    }
}

} // verus!
