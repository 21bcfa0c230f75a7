//! The item enumerator's data model.  A directory listing is classified
//! into template items: a single file, or a collection — a directory whose
//! files are rendered together under one variable set.  The resulting list
//! is ordered lexicographically by each item's representative path, and a
//! collection's files are ordered lexicographically too.

use vstd::prelude::*;
use vstd::relations::sorted_by;
use vstd::multiset::Multiset;
use vstd::seq_lib::{to_multiset_build, to_multiset_insert, lemma_sorted_unique};
use crate::text::{bytes_eq, lex_le, lex_le_bytes, lex_leq_fn, lemma_lex_is_total_ordering,
    lemma_lex_total, lemma_lex_trans, views};

verus! {

broadcast use vstd::seq_lib::group_to_multiset_ensures, vstd::multiset::group_multiset_axioms;

/// A selectable item: one template file, or a directory of files rendered
/// together.
#[derive(Debug)]
pub enum TemplateItem {
    File { path: Vec<u8> },
    FileCollection { directory_path: Vec<u8>, files: Vec<Vec<u8>> },
}

/// A template item at the specification level.
pub ghost enum ItemS {
    FileS { path: Seq<u8> },
    CollectionS { directory_path: Seq<u8>, files: Seq<Seq<u8>> },
}

impl View for TemplateItem {
    type V = ItemS;

    open spec fn view(&self) -> ItemS {
        match self {
            TemplateItem::File { path } => ItemS::FileS { path: path@ },
            TemplateItem::FileCollection { directory_path, files } => ItemS::CollectionS {
                directory_path: directory_path@,
                files: views(files@),
            },
        }
    }
}

/// The representative path of an item: the file's path, or the collection's
/// directory path.
pub open spec fn item_path_v(it: ItemS) -> Seq<u8> {
    match it {
        ItemS::FileS { path } => path,
        ItemS::CollectionS { directory_path, .. } => directory_path,
    }
}

impl TemplateItem {
    pub open spec fn spec_path(&self) -> Seq<u8> {
        item_path_v(self@)
    }

    /// The representative path of this item.
    pub fn path(&self) -> (r: &Vec<u8>)
        ensures
            r@ == self.spec_path(),
    {
        match self {
            TemplateItem::File { path } => path,
            TemplateItem::FileCollection { directory_path, .. } => directory_path,
        }
    }
}

/// Whether two lists of byte strings hold the same strings in the same
/// order.
fn paths_eq(a: &Vec<Vec<u8>>, b: &Vec<Vec<u8>>) -> (r: bool)
    ensures
        r == (views(a@) == views(b@)),
{
    if a.len() != b.len() {
        proof {
            assert(views(a@).len() != views(b@).len());
        }
        return false;
    }
    let mut i: usize = 0;
    while i < a.len()
        invariant
            a@.len() == b@.len(),
            0 <= i <= a@.len(),
            forall|k: int| 0 <= k < i ==> views(a@)[k] == views(b@)[k],
        decreases a@.len() - i,
    {
        if !bytes_eq(a[i].as_slice(), b[i].as_slice()) {
            proof {
                assert(views(a@)[i as int] != views(b@)[i as int]);
            }
            return false;
        }
        i = i + 1;
    }
    proof {
        assert(views(a@) =~= views(b@));
    }
    true
}

/// Structural equality of two items.
pub open spec fn item_eq_spec(a: &TemplateItem, b: &TemplateItem) -> bool {
    match (a, b) {
        (TemplateItem::File { path: p1 }, TemplateItem::File { path: p2 }) => p1@ == p2@,
        (
            TemplateItem::FileCollection { directory_path: d1, files: f1 },
            TemplateItem::FileCollection { directory_path: d2, files: f2 },
        ) => d1@ == d2@ && views(f1@) == views(f2@),
        _ => false,
    }
}

impl PartialEq for TemplateItem {
    fn eq(&self, other: &Self) -> (r: bool) {
        match (self, other) {
            (TemplateItem::File { path: l_path }, TemplateItem::File { path: r_path }) => bytes_eq(
                l_path.as_slice(),
                r_path.as_slice(),
            ),
            (
                TemplateItem::FileCollection { directory_path: l_directory_path, files: l_files },
                TemplateItem::FileCollection { directory_path: r_directory_path, files: r_files },
            ) => bytes_eq(l_directory_path.as_slice(), r_directory_path.as_slice()) && paths_eq(
                l_files,
                r_files,
            ),
            _ => false,
        }
    }
}

impl vstd::std_specs::cmp::PartialEqSpecImpl for TemplateItem {
    open spec fn obeys_eq_spec() -> bool {
        true
    }

    open spec fn eq_spec(&self, other: &Self) -> bool {
        item_eq_spec(self, other)
    }
}

/// A snippet: a name taken from its file name, and the raw text, rendered
/// like a template body but never carrying a header.
#[derive(Debug)]
pub struct Snippet {
    pub name: Vec<u8>,
    pub contents: Vec<u8>,
}

/// What a directory listing reports of one entry, after the caller has
/// probed its type: its path, whether it is a directory, and — for a
/// directory — the paths of the regular files directly inside it.
pub struct DirEntryInfo {
    pub path: Vec<u8>,
    pub is_dir: bool,
    pub files: Vec<Vec<u8>>,
}

/// The item a directory entry becomes: a directory turns into a collection
/// with its files sorted lexicographically, anything else into a file item.
pub open spec fn entry_item_view(e: DirEntryInfo) -> ItemS {
    if e.is_dir {
        ItemS::CollectionS {
            directory_path: e.path@,
            files: views(e.files@).sort_by(lex_leq_fn()),
        }
    } else {
        ItemS::FileS { path: e.path@ }
    }
}

/// Item order: lexicographic by representative path.
pub open spec fn item_le_fn() -> spec_fn(ItemS, ItemS) -> bool {
    |a: ItemS, b: ItemS| lex_le(item_path_v(a), item_path_v(b))
}

/// The views of a sequence of items.
pub open spec fn item_views(s: Seq<TemplateItem>) -> Seq<ItemS> {
    s.map_values(|it: TemplateItem| it@)
}

/// Insert a path into a lexicographically sorted list, keeping it sorted.
fn insert_path_sorted(out: &mut Vec<Vec<u8>>, x: Vec<u8>)
    requires
        sorted_by(views(old(out)@), lex_leq_fn()),
    ensures
        sorted_by(views(final(out)@), lex_leq_fn()),
        views(final(out)@).to_multiset() == views(old(out)@).to_multiset().insert(x@),
{
    let mut p: usize = 0;
    while p < out.len() && !lex_le_bytes(x.as_slice(), out[p].as_slice())
        invariant
            sorted_by(views(out@), lex_leq_fn()),
            out@ == old(out)@,
            0 <= p <= out@.len(),
            forall|k: int| 0 <= k < p ==> lex_le(#[trigger] views(out@)[k], x@),
        decreases out@.len() - p,
    {
        proof {
            lemma_lex_total(x@, views(out@)[p as int]);
        }
        p = p + 1;
    }
    let ghost old_views = views(out@);
    out.insert(p, x);
    proof {
        assert(views(out@) =~= old_views.insert(p as int, x@));
        to_multiset_insert(old_views, p as int, x@);
        let nv = views(out@);
        assert forall|i: int, j: int| 0 <= i < j < nv.len() implies lex_leq_fn()(
            nv[i],
            nv[j],
        ) by {
            if i < p && j < p {
                assert(nv[i] == old_views[i] && nv[j] == old_views[j]);
            } else if i < p && j == p {
                assert(nv[i] == old_views[i] && nv[j] == x@);
            } else if i < p && j > p {
                assert(nv[i] == old_views[i] && nv[j] == old_views[j - 1]);
                if i == j - 1 {
                    assert(false);
                }
            } else if i == p && j > p {
                assert(nv[i] == x@ && nv[j] == old_views[j - 1]);
                assert(p < old_views.len());
                assert(lex_le(x@, old_views[p as int]));
                if j - 1 > p {
                    assert(lex_leq_fn()(old_views[p as int], old_views[j - 1]));
                    assert(lex_le(old_views[p as int], old_views[j - 1]));
                    lemma_lex_trans(x@, old_views[p as int], old_views[j - 1]);
                }
            } else {
                assert(nv[i] == old_views[i - 1] && nv[j] == old_views[j - 1]);
            }
        }
    }
}

/// Sort a list of paths lexicographically.
pub fn sort_paths(paths: Vec<Vec<u8>>) -> (r: Vec<Vec<u8>>)
    ensures
        views(r@) == views(paths@).sort_by(lex_leq_fn()),
{
    let ghost orig = views(paths@);
    let mut rem = paths;
    let mut out: Vec<Vec<u8>> = Vec::new();
    proof {
        assert(views(out@) =~= Seq::<Seq<u8>>::empty());
        assert(views(out@).to_multiset().add(views(rem@).to_multiset()) =~= orig.to_multiset());
    }
    while rem.len() > 0
        invariant
            sorted_by(views(out@), lex_leq_fn()),
            views(out@).to_multiset().add(views(rem@).to_multiset()) == orig.to_multiset(),
        decreases rem@.len(),
    {
        let ghost rem_before = views(rem@);
        match rem.pop() {
            None => {},
            Some(x) => {
                proof {
                    assert(rem_before =~= views(rem@).push(x@));
                    to_multiset_build(views(rem@), x@);
                    assert(rem_before.to_multiset() =~= views(rem@).to_multiset().insert(x@));
                }
                insert_path_sorted(&mut out, x);
                proof {
                    assert(views(out@).to_multiset().add(views(rem@).to_multiset()) =~= orig
                        .to_multiset());
                }
            },
        }
    }
    proof {
        assert(views(rem@) =~= Seq::<Seq<u8>>::empty());
        assert(views(rem@).to_multiset() =~= Multiset::<Seq<u8>>::empty());
        assert(views(out@).to_multiset() =~= orig.to_multiset());
        lemma_lex_is_total_ordering();
        orig.lemma_sort_by_ensures(lex_leq_fn());
        lemma_sorted_unique(views(out@), orig.sort_by(lex_leq_fn()), lex_leq_fn());
        assert(views(out@) =~= orig.sort_by(lex_leq_fn()));
    }
    out
}

/// Insert an item into a list sorted by representative path, keeping it
/// sorted.
fn insert_item_sorted(out: &mut Vec<TemplateItem>, x: TemplateItem)
    requires
        sorted_by(item_views(old(out)@), item_le_fn()),
    ensures
        sorted_by(item_views(final(out)@), item_le_fn()),
        item_views(final(out)@).to_multiset() == item_views(old(out)@).to_multiset().insert(x@),
{
    let ghost xv = x@;
    let xp = x.path();
    let ghost xpv = xp@;
    proof {
        assert(xpv == item_path_v(xv));
    }
    let mut p: usize = 0;
    while p < out.len() && !lex_le_bytes(xp.as_slice(), out[p].path().as_slice())
        invariant
            sorted_by(item_views(out@), item_le_fn()),
            out@ == old(out)@,
            xpv == item_path_v(xv),
            xp@ == xpv,
            0 <= p <= out@.len(),
            forall|k: int|
                0 <= k < p ==> lex_le(item_path_v(#[trigger] item_views(out@)[k]), xpv),
        decreases out@.len() - p,
    {
        proof {
            lemma_lex_total(xpv, item_path_v(item_views(out@)[p as int]));
        }
        p = p + 1;
    }
    let ghost old_views = item_views(out@);
    let ghost at_p: bool = p < out@.len();
    proof {
        if at_p {
            assert(lex_le(xpv, item_path_v(old_views[p as int])));
        }
    }
    out.insert(p, x);
    proof {
        assert(item_views(out@) =~= old_views.insert(p as int, xv));
        to_multiset_insert(old_views, p as int, xv);
        let nv = item_views(out@);
        assert forall|i: int, j: int| 0 <= i < j < nv.len() implies item_le_fn()(
            nv[i],
            nv[j],
        ) by {
            if i < p && j < p {
                assert(nv[i] == old_views[i] && nv[j] == old_views[j]);
            } else if i < p && j == p {
                assert(nv[i] == old_views[i] && nv[j] == xv);
            } else if i < p && j > p {
                assert(nv[i] == old_views[i] && nv[j] == old_views[j - 1]);
                if i == j - 1 {
                    assert(false);
                }
            } else if i == p && j > p {
                assert(nv[i] == xv && nv[j] == old_views[j - 1]);
                assert(lex_le(xpv, item_path_v(old_views[p as int])));
                if j - 1 > p {
                    assert(item_le_fn()(old_views[p as int], old_views[j - 1]));
                    assert(lex_le(
                        item_path_v(old_views[p as int]),
                        item_path_v(old_views[j - 1]),
                    ));
                    lemma_lex_trans(
                        xpv,
                        item_path_v(old_views[p as int]),
                        item_path_v(old_views[j - 1]),
                    );
                }
            } else {
                assert(nv[i] == old_views[i - 1] && nv[j] == old_views[j - 1]);
            }
        }
    }
}

/// Classify a directory listing into template items: each directory entry
/// becomes a collection of its files, lexicographically sorted; each other
/// entry becomes a single file item.  The result is ordered
/// lexicographically by representative path.
pub fn get_templates(entries: Vec<DirEntryInfo>) -> (r: Vec<TemplateItem>)
    ensures
        r@.len() == entries@.len(),
        sorted_by(item_views(r@), item_le_fn()),
        item_views(r@).to_multiset() == entries@.map_values(
            |e: DirEntryInfo| entry_item_view(e),
        ).to_multiset(),
{
    let ghost orig = entries@.map_values(|e: DirEntryInfo| entry_item_view(e));
    let mut rem = entries;
    let mut out: Vec<TemplateItem> = Vec::new();
    proof {
        assert(item_views(out@) =~= Seq::<ItemS>::empty());
        assert(rem@.map_values(|e: DirEntryInfo| entry_item_view(e)) =~= orig);
        assert(item_views(out@).to_multiset().add(
            rem@.map_values(|e: DirEntryInfo| entry_item_view(e)).to_multiset(),
        ) =~= orig.to_multiset());
    }
    while rem.len() > 0
        invariant
            sorted_by(item_views(out@), item_le_fn()),
            item_views(out@).to_multiset().add(
                rem@.map_values(|e: DirEntryInfo| entry_item_view(e)).to_multiset(),
            ) == orig.to_multiset(),
        decreases rem@.len(),
    {
        let ghost rem_before = rem@.map_values(|e: DirEntryInfo| entry_item_view(e));
        match rem.pop() {
            None => {},
            Some(e) => {
                let ghost ev = entry_item_view(e);
                proof {
                    assert(rem_before =~= rem@.map_values(
                        |e2: DirEntryInfo| entry_item_view(e2),
                    ).push(ev));
                    to_multiset_build(
                        rem@.map_values(|e2: DirEntryInfo| entry_item_view(e2)),
                        ev,
                    );
                }
                let item = if e.is_dir {
                    let sorted_files = sort_paths(e.files);
                    TemplateItem::FileCollection {
                        directory_path: e.path,
                        files: sorted_files,
                    }
                } else {
                    TemplateItem::File { path: e.path }
                };
                proof {
                    assert(item@ == ev);
                }
                insert_item_sorted(&mut out, item);
            },
        }
    }
    proof {
        assert(rem@.map_values(|e: DirEntryInfo| entry_item_view(e)) =~= Seq::<ItemS>::empty());
        assert(rem@.map_values(|e: DirEntryInfo| entry_item_view(e)).to_multiset()
            =~= Multiset::<ItemS>::empty());
        assert(item_views(out@).to_multiset() =~= orig.to_multiset());
        item_views(out@).to_multiset_ensures();
        orig.to_multiset_ensures();
    }
    out
}

} // verus!
