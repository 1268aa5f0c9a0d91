use vstd::prelude::*;
use vstd::relations::sorted_by;

use crate::models::{image_views, DirEntryInfo, ImageFile, ImageFileView};
use crate::order::{
    insert_by, insertion_sort, lemma_insert_by_at, lemma_name_le_total, lemma_name_le_trans,
    name_le, name_leq, total_preorder,
};
use crate::paths::{
    extension_of, is_whitelisted, is_whitelisted_extension, lower_of, lowercase, spec_extension,
};

verus! {

/// The descriptor that a listing entry contributes, if any: a regular file
/// whose name is valid text and has a supported extension.
pub open spec fn image_of(e: DirEntryInfo) -> Option<ImageFileView> {
    if e.is_file && e.name is Some && spec_extension(e.name->Some_0@) is Some && is_whitelisted(
        lower_of(spec_extension(e.name->Some_0@)->Some_0),
    ) {
        Some(
            ImageFileView {
                path: e.path@,
                filename: e.name->Some_0@,
                extension: lower_of(spec_extension(e.name->Some_0@)->Some_0),
            },
        )
    } else {
        None
    }
}

/// The descriptors of a listing, in listing order.
pub open spec fn images_in(entries: Seq<DirEntryInfo>) -> Seq<ImageFileView>
    decreases entries.len(),
{
    if entries.len() == 0 {
        Seq::empty()
    } else {
        let rest = images_in(entries.drop_last());
        match image_of(entries.last()) {
            Some(v) => rest.push(v),
            None => rest,
        }
    }
}

/// Orders descriptors by file name, in code-point order.
pub open spec fn by_filename() -> spec_fn(ImageFileView, ImageFileView) -> bool {
    |a: ImageFileView, b: ImageFileView| name_le(a.filename, b.filename)
}

/// The result of a scan: the listing's descriptors, stably sorted by file name.
pub open spec fn scan_result(entries: Seq<DirEntryInfo>) -> Seq<ImageFileView> {
    insertion_sort(images_in(entries), by_filename())
}

/// File-name order is a total preorder.
pub proof fn lemma_by_filename_total_preorder()
    ensures
        total_preorder(by_filename()),
{
    assert forall|a: ImageFileView, b: ImageFileView| #[trigger]
        by_filename()(a, b) || by_filename()(b, a) by {
        lemma_name_le_total(a.filename, b.filename);
    }
    assert forall|a: ImageFileView, b: ImageFileView, c: ImageFileView| #[trigger]
        by_filename()(a, b) && #[trigger] by_filename()(b, c) implies by_filename()(a, c) by {
        lemma_name_le_trans(a.filename, b.filename, c.filename);
    }
}

/// The descriptor for one listing entry, if it is a supported image.
pub fn image_for_entry(entry: &DirEntryInfo) -> (r: Option<ImageFile>)
    ensures
        r matches Some(f) ==> image_of(*entry) == Some(f@),
        r is None ==> image_of(*entry) is None,
{
    if !entry.is_file {
        return None;
    }
    match &entry.name {
        Some(name) => match extension_of(name.as_str()) {
            Some(ext) => {
                let extension = lowercase(ext);
                if is_whitelisted_extension(extension.as_str()) {
                    Some(ImageFile { path: entry.path.clone(), filename: name.clone(), extension })
                } else {
                    None
                }
            },
            None => None,
        },
        None => None,
    }
}

/// Picks the supported images out of one directory listing and sorts them by
/// file name (code-point order; equal names keep their listing order).
pub fn scan_directory_for_images(entries: &Vec<DirEntryInfo>) -> (r: Vec<ImageFile>)
    ensures
        image_views(r@) == scan_result(entries@),
{
    proof {
        lemma_by_filename_total_preorder();
    }
    let mut out: Vec<ImageFile> = Vec::new();
    let mut i: usize = 0;
    while i < entries.len()
        invariant
            0 <= i <= entries.len(),
            image_views(out@) == insertion_sort(images_in(entries@.take(i as int)), by_filename()),
        decreases entries.len() - i,
    {
        assert(entries@.take(i + 1).drop_last() =~= entries@.take(i as int));
        match image_for_entry(&entries[i]) {
            Some(img) => {
                let ghost before = image_views(out@);
                let mut p: usize = 0;
                while p < out.len() && name_leq(out[p].filename.as_str(), img.filename.as_str())
                    invariant
                        0 <= p <= out.len(),
                        before == image_views(out@),
                        forall|k: int| 0 <= k < p ==> #[trigger] by_filename()(before[k], img@),
                    decreases out.len() - p,
                {
                    p = p + 1;
                }
                proof {
                    lemma_insert_by_at(before, img@, by_filename(), p as int);
                    let s = images_in(entries@.take(i as int));
                    assert(s.push(img@).drop_last() =~= s);
                }
                let ghost v = img@;
                out.insert(p, img);
                assert(image_views(out@) =~= before.insert(p as int, v));
            },
            None => {},
        }
        i = i + 1;
    }
    assert(entries@.take(i as int) =~= entries@);
    out
}

/// No two entries of the listing carry the same name.
pub open spec fn names_distinct(entries: Seq<DirEntryInfo>) -> bool {
    forall|i: int, j: int|
        0 <= i < j < entries.len() && (#[trigger] entries[i]).name is Some && (
        #[trigger] entries[j]).name is Some ==> entries[i].name->Some_0@ != entries[j].name->Some_0@
}

/// No two descriptors carry the same file name.
pub open spec fn filenames_distinct(s: Seq<ImageFileView>) -> bool {
    forall|i: int, j: int| 0 <= i < j < s.len() ==> (#[trigger] s[i]).filename != (#[trigger] s[j]).filename
}

proof fn lemma_images_in_source(entries: Seq<DirEntryInfo>, k: int)
    requires
        0 <= k < images_in(entries).len(),
    ensures
        exists|m: int|
            0 <= m < entries.len() && (#[trigger] entries[m]).name is Some && entries[m].name->Some_0@
                == images_in(entries)[k].filename,
        image_of(entries.last()) is None ==> k < images_in(entries.drop_last()).len(),
    decreases entries.len(),
{
    let rest = images_in(entries.drop_last());
    if k < rest.len() {
        lemma_images_in_source(entries.drop_last(), k);
        let m = choose|m: int|
            0 <= m < entries.drop_last().len() && (#[trigger] entries.drop_last()[m]).name is Some
                && entries.drop_last()[m].name->Some_0@ == rest[k].filename;
        assert(entries[m] == entries.drop_last()[m]);
    } else {
        assert(entries[entries.len() - 1] == entries.last());
    }
}

proof fn lemma_images_in_distinct(entries: Seq<DirEntryInfo>)
    requires
        names_distinct(entries),
    ensures
        filenames_distinct(images_in(entries)),
    decreases entries.len(),
{
    if entries.len() > 0 {
        let e = entries.drop_last();
        assert(names_distinct(e)) by {
            assert forall|i: int, j: int|
                0 <= i < j < e.len() && (#[trigger] e[i]).name is Some && (
                #[trigger] e[j]).name is Some implies e[i].name->Some_0@ != e[j].name->Some_0@ by {
                assert(e[i] == entries[i] && e[j] == entries[j]);
            }
        }
        lemma_images_in_distinct(e);
        let rest = images_in(e);
        if let Some(v) = image_of(entries.last()) {
            let r = rest.push(v);
            assert forall|i: int, j: int| 0 <= i < j < r.len() implies (#[trigger] r[i]).filename
                != (#[trigger] r[j]).filename by {
                if j == rest.len() {
                    lemma_images_in_source(e, i);
                    let m = choose|m: int|
                        0 <= m < e.len() && (#[trigger] e[m]).name is Some && e[m].name->Some_0@
                            == rest[i].filename;
                    assert(entries[m] == e[m]);
                    assert(entries[entries.len() - 1] == entries.last());
                } else {
                    assert(r[i] == rest[i] && r[j] == rest[j]);
                }
            }
        }
    }
}

proof fn lemma_insert_distinct(s: Seq<ImageFileView>, x: ImageFileView)
    requires
        filenames_distinct(s),
        forall|k: int| 0 <= k < s.len() ==> (#[trigger] s[k]).filename != x.filename,
    ensures
        filenames_distinct(insert_by(s, x, by_filename())),
    decreases s.len(),
{
    if s.len() > 0 && by_filename()(s[0], x) {
        let t = s.drop_first();
        assert forall|k: int| 0 <= k < t.len() implies (#[trigger] t[k]).filename != x.filename by {
            assert(t[k] == s[k + 1]);
        }
        assert(filenames_distinct(t)) by {
            assert forall|i: int, j: int| 0 <= i < j < t.len() implies (#[trigger] t[i]).filename
                != (#[trigger] t[j]).filename by {
                assert(t[i] == s[i + 1] && t[j] == s[j + 1]);
            }
        }
        lemma_insert_distinct(t, x);
        let u = insert_by(t, x, by_filename());
        let r = seq![s[0]] + u;
        assert forall|i: int, j: int| 0 <= i < j < r.len() implies (#[trigger] r[i]).filename
            != (#[trigger] r[j]).filename by {
            if i == 0 {
                crate::order::lemma_insert_by_contains(t, x, by_filename(), u[j - 1]);
                assert(u.contains(u[j - 1]));
                if u[j - 1] != x {
                    let k = choose|k: int| 0 <= k < t.len() && t[k] == u[j - 1];
                    assert(s[k + 1] == t[k]);
                }
            } else {
                assert(r[i] == u[i - 1] && r[j] == u[j - 1]);
            }
        }
    } else if s.len() > 0 {
        let r = seq![x] + s;
        assert forall|i: int, j: int| 0 <= i < j < r.len() implies (#[trigger] r[i]).filename
            != (#[trigger] r[j]).filename by {
            if i == 0 {
                assert(r[j] == s[j - 1]);
            } else {
                assert(r[i] == s[i - 1] && r[j] == s[j - 1]);
            }
        }
    }
}

proof fn lemma_sort_distinct(s: Seq<ImageFileView>)
    requires
        filenames_distinct(s),
    ensures
        filenames_distinct(insertion_sort(s, by_filename())),
    decreases s.len(),
{
    broadcast use vstd::seq_lib::group_to_multiset_ensures;

    if s.len() > 0 {
        let d = s.drop_last();
        assert(filenames_distinct(d)) by {
            assert forall|i: int, j: int| 0 <= i < j < d.len() implies (#[trigger] d[i]).filename
                != (#[trigger] d[j]).filename by {
                assert(d[i] == s[i] && d[j] == s[j]);
            }
        }
        lemma_sort_distinct(d);
        lemma_by_filename_total_preorder();
        crate::order::lemma_insertion_sort(d, by_filename());
        let t = insertion_sort(d, by_filename());
        assert forall|k: int| 0 <= k < t.len() implies (#[trigger] t[k]).filename
            != s.last().filename by {
            assert(t.to_multiset().count(t[k]) > 0);
            assert(d.contains(t[k]));
            let m = choose|m: int| 0 <= m < d.len() && d[m] == t[k];
            assert(s[m] == d[m]);
        }
        lemma_insert_distinct(t, s.last());
    }
}

/// A scan lists its images in ascending file-name order, each with an
/// extension from the whitelist in lower case; where the listing's names are
/// distinct, as in one directory, the order is strictly ascending.
pub proof fn lemma_scan_ordered(entries: Seq<DirEntryInfo>)
    ensures
        sorted_by(scan_result(entries), by_filename()),
        scan_result(entries).to_multiset() =~= images_in(entries).to_multiset(),
        forall|k: int|
            0 <= k < scan_result(entries).len() ==> is_whitelisted(
                (#[trigger] scan_result(entries)[k]).extension,
            ),
        names_distinct(entries) ==> forall|i: int, j: int|
            0 <= i < j < scan_result(entries).len() ==> name_le(
                (#[trigger] scan_result(entries)[i]).filename,
                (#[trigger] scan_result(entries)[j]).filename,
            ) && scan_result(entries)[i].filename != scan_result(entries)[j].filename,
{
    broadcast use vstd::seq_lib::group_to_multiset_ensures;

    lemma_by_filename_total_preorder();
    crate::order::lemma_insertion_sort(images_in(entries), by_filename());
    let r = scan_result(entries);
    assert forall|k: int| 0 <= k < r.len() implies is_whitelisted((#[trigger] r[k]).extension) by {
        assert(r.to_multiset().count(r[k]) > 0);
        assert(images_in(entries).contains(r[k]));
        let m = choose|m: int| 0 <= m < images_in(entries).len() && images_in(entries)[m] == r[k];
        lemma_images_in_whitelisted(entries, m);
    }
    if names_distinct(entries) {
        lemma_images_in_distinct(entries);
        lemma_sort_distinct(images_in(entries));
        assert forall|i: int, j: int| 0 <= i < j < r.len() implies name_le(
            (#[trigger] r[i]).filename,
            (#[trigger] r[j]).filename,
        ) && r[i].filename != r[j].filename by {
            assert(by_filename()(r[i], r[j]));
        }
    }
}

proof fn lemma_images_in_whitelisted(entries: Seq<DirEntryInfo>, k: int)
    requires
        0 <= k < images_in(entries).len(),
    ensures
        is_whitelisted(images_in(entries)[k].extension),
    decreases entries.len(),
{
    if k < images_in(entries.drop_last()).len() {
        lemma_images_in_whitelisted(entries.drop_last(), k);
    }
}

proof fn lemma_images_in_contains(entries: Seq<DirEntryInfo>, v: ImageFileView)
    ensures
        images_in(entries).contains(v) <==> exists|k: int|
            0 <= k < entries.len() && image_of(#[trigger] entries[k]) == Some(v),
    decreases entries.len(),
{
    if entries.len() > 0 {
        let e = entries.drop_last();
        lemma_images_in_contains(e, v);
        let rest = images_in(e);
        if images_in(entries).contains(v) {
            let j = choose|j: int| 0 <= j < images_in(entries).len() && images_in(entries)[j] == v;
            if j < rest.len() {
                assert(rest.contains(v));
                let k = choose|k: int| 0 <= k < e.len() && image_of(#[trigger] e[k]) == Some(v);
                assert(entries[k] == e[k]);
            } else {
                assert(image_of(entries[entries.len() - 1]) == Some(v));
            }
        }
        if exists|k: int| 0 <= k < entries.len() && image_of(#[trigger] entries[k]) == Some(v) {
            let k = choose|k: int| 0 <= k < entries.len() && image_of(#[trigger] entries[k]) == Some(v);
            if k < entries.len() - 1 {
                assert(e[k] == entries[k]);
                assert(rest.contains(v));
                let j = choose|j: int| 0 <= j < rest.len() && rest[j] == v;
                assert(images_in(entries)[j] == v);
            } else {
                assert(entries.last() == entries[k]);
                assert(images_in(entries)[rest.len() as int] == v);
            }
        }
    }
}

/// Strictly ascending by file name.
pub open spec fn strictly_by_filename(s: Seq<ImageFileView>) -> bool {
    forall|i: int, j: int|
        0 <= i < j < s.len() ==> name_le((#[trigger] s[i]).filename, (#[trigger] s[j]).filename)
            && s[i].filename != s[j].filename
}

proof fn lemma_strict_unique(x: Seq<ImageFileView>, y: Seq<ImageFileView>)
    requires
        strictly_by_filename(x),
        strictly_by_filename(y),
        forall|v: ImageFileView| x.contains(v) <==> y.contains(v),
    ensures
        x == y,
    decreases x.len(),
{
    if x.len() == 0 {
        if y.len() > 0 {
            assert(y.contains(y[0]));
        }
        assert(x =~= y);
    } else {
        assert(x.contains(x[0]));
        let k = choose|k: int| 0 <= k < y.len() && y[k] == x[0];
        assert(y.contains(y[0]));
        let m = choose|m: int| 0 <= m < x.len() && x[m] == y[0];
        if k > 0 {
            assert(name_le(y[0].filename, y[k].filename));
            if m > 0 {
                assert(name_le(x[0].filename, x[m].filename));
                crate::order::lemma_name_le_antisym(x[0].filename, y[0].filename);
            }
        }
        assert(y[0] == x[0]);
        let xs = x.drop_first();
        let ys = y.drop_first();
        assert forall|v: ImageFileView| xs.contains(v) <==> ys.contains(v) by {
            if xs.contains(v) {
                let a = choose|a: int| 0 <= a < xs.len() && xs[a] == v;
                assert(x[a + 1] == v);
                assert(x.contains(v));
                let b = choose|b: int| 0 <= b < y.len() && y[b] == v;
                if b == 0 {
                    assert(x[0].filename != x[a + 1].filename);
                }
                assert(ys[b - 1] == v);
            }
            if ys.contains(v) {
                let a = choose|a: int| 0 <= a < ys.len() && ys[a] == v;
                assert(y[a + 1] == v);
                assert(y.contains(v));
                let b = choose|b: int| 0 <= b < x.len() && x[b] == v;
                if b == 0 {
                    assert(y[0].filename != y[a + 1].filename);
                }
                assert(xs[b - 1] == v);
            }
        }
        assert(strictly_by_filename(xs)) by {
            assert forall|i: int, j: int| 0 <= i < j < xs.len() implies name_le(
                (#[trigger] xs[i]).filename,
                (#[trigger] xs[j]).filename,
            ) && xs[i].filename != xs[j].filename by {
                assert(xs[i] == x[i + 1] && xs[j] == x[j + 1]);
            }
        }
        assert(strictly_by_filename(ys)) by {
            assert forall|i: int, j: int| 0 <= i < j < ys.len() implies name_le(
                (#[trigger] ys[i]).filename,
                (#[trigger] ys[j]).filename,
            ) && ys[i].filename != ys[j].filename by {
                assert(ys[i] == y[i + 1] && ys[j] == y[j + 1]);
            }
        }
        lemma_strict_unique(xs, ys);
        assert(x =~= seq![x[0]] + xs);
        assert(y =~= seq![y[0]] + ys);
    }
}

/// Scanning a directory twice gives the same ordered result, even where the
/// listing comes back in another order: two listings that hold the same
/// entries, each with distinct names, scan alike.
pub proof fn lemma_scan_repeatable(a: Seq<DirEntryInfo>, b: Seq<DirEntryInfo>)
    requires
        a.to_multiset() == b.to_multiset(),
        names_distinct(a),
        names_distinct(b),
    ensures
        scan_result(a) == scan_result(b),
{
    broadcast use vstd::seq_lib::group_to_multiset_ensures;

    lemma_scan_ordered(a);
    lemma_scan_ordered(b);
    let ra = scan_result(a);
    let rb = scan_result(b);
    assert forall|v: ImageFileView| ra.contains(v) <==> rb.contains(v) by {
        lemma_images_in_contains(a, v);
        lemma_images_in_contains(b, v);
        assert(ra.contains(v) <==> ra.to_multiset().count(v) > 0);
        assert(rb.contains(v) <==> rb.to_multiset().count(v) > 0);
        assert(images_in(a).contains(v) <==> images_in(a).to_multiset().count(v) > 0);
        assert(images_in(b).contains(v) <==> images_in(b).to_multiset().count(v) > 0);
        if exists|k: int| 0 <= k < a.len() && image_of(#[trigger] a[k]) == Some(v) {
            let k = choose|k: int| 0 <= k < a.len() && image_of(#[trigger] a[k]) == Some(v);
            assert(a.to_multiset().count(a[k]) > 0);
            assert(b.contains(a[k]));
            let j = choose|j: int| 0 <= j < b.len() && b[j] == a[k];
            assert(image_of(b[j]) == Some(v));
        }
        if exists|k: int| 0 <= k < b.len() && image_of(#[trigger] b[k]) == Some(v) {
            let k = choose|k: int| 0 <= k < b.len() && image_of(#[trigger] b[k]) == Some(v);
            assert(b.to_multiset().count(b[k]) > 0);
            assert(a.contains(b[k]));
            let j = choose|j: int| 0 <= j < a.len() && a[j] == b[k];
            assert(image_of(a[j]) == Some(v));
        }
    }
    lemma_strict_unique(ra, rb);
}

} // verus!
