//! Directory enumeration: raw directory entries become `Entry` values, delivered in
//! batches so that a listing can fill progressively and be abandoned midway.

use crate::model::{Attributes, Entry, EntryKind};
use crate::path::WinPath;
use vstd::prelude::*;

verus! {

/// Number of entries accumulated before a batch is delivered.
pub const DEFAULT_BATCH: usize = 256;

/// A directory entry with its metadata, as the file system reports it.
#[derive(Debug)]
pub struct Dirent {
    pub name: String,
    pub path: WinPath,
    pub is_dir: bool,
    pub len: u64,
    pub modified: Option<i64>,
    pub created: Option<i64>,
    /// Raw attribute bits.
    pub attributes: u32,
}

/// Whether `e` is what `d` becomes in a listing.
pub open spec fn listed(d: Dirent, e: Entry) -> bool {
    &&& e.name@ == d.name@
    &&& e.path@ == d.path@
    &&& e.kind == (if d.is_dir {
        EntryKind::Directory
    } else {
        EntryKind::File
    })
    &&& e.size == (if d.is_dir {
        0
    } else {
        d.len
    })
    &&& e.modified == d.modified
    &&& e.created == d.created
    &&& e.attrs.hidden == (d.attributes & 0x2 != 0)
    &&& e.attrs.system == (d.attributes & 0x4 != 0)
    &&& e.attrs.readonly == (d.attributes & 0x1 != 0)
    &&& e.attrs.reparse == (d.attributes & 0x400 != 0)
}

/// The entries of a directory that could be read; the others are skipped.
pub open spec fn readable(listing: Seq<Option<Dirent>>) -> Seq<Dirent>
    decreases listing.len(),
{
    if listing.len() == 0 {
        seq![]
    } else {
        match listing.last() {
            Some(d) => readable(listing.drop_last()).push(d),
            None => readable(listing.drop_last()),
        }
    }
}

/// The readable entries that are directories.
pub open spec fn readable_dirs(listing: Seq<Option<Dirent>>) -> Seq<Dirent> {
    readable(listing).filter(|d: Dirent| d.is_dir)
}

/// Whether `es` lists `ds`, one entry for each, in order.
pub open spec fn lists(ds: Seq<Dirent>, es: Seq<Entry>) -> bool {
    &&& es.len() == ds.len()
    &&& forall|i: int| 0 <= i < ds.len() ==> listed(ds[i], #[trigger] es[i])
}

/// The entry that `d` becomes in a listing.
pub fn entry_from(d: &Dirent) -> (r: Entry)
    ensures
        listed(*d, r),
{
    Entry {
        name: d.name.clone(),
        path: d.path.clone(),
        kind: if d.is_dir {
            EntryKind::Directory
        } else {
            EntryKind::File
        },
        size: if d.is_dir {
            0
        } else {
            d.len
        },
        modified: d.modified,
        created: d.created,
        attrs: Attributes::from_raw(d.attributes),
    }
}

/// Entries on their way to the listing, gathered into batches.
pub struct DirBatcher {
    pub batch: usize,
    pub buffer: Vec<Entry>,
}

impl DirBatcher {
    /// The size at which a batch is delivered is never zero, and the buffer stays
    /// below it.
    pub open spec fn wf(&self) -> bool {
        self.batch >= 1 && self.buffer@.len() < self.batch
    }

    /// Deliver batches of `batch` entries (of one, for zero).
    pub fn new(batch: usize) -> (r: DirBatcher)
        ensures
            r.wf(),
            r.buffer@.len() == 0,
            r.batch == (if batch == 0 {
                1
            } else {
                batch
            }),
    {
        let batch: usize = if batch == 0 {
            1
        } else {
            batch
        };
        DirBatcher { batch, buffer: Vec::new() }
    }

    /// Take one raw entry; `None` stands for one that could not be read. A batch
    /// comes back as soon as it is full.
    pub fn push(&mut self, dirent: &Option<Dirent>) -> (r: Option<Vec<Entry>>)
        requires
            old(self).wf(),
        ensures
            final(self).wf(),
            final(self).batch == old(self).batch,
            match (dirent, r) {
                (None, Some(_)) => false,
                (None, None) => final(self).buffer@ == old(self).buffer@,
                (Some(d), None) => {
                    &&& old(self).buffer@.len() + 1 < old(self).batch
                    &&& final(self).buffer@.len() == old(self).buffer@.len() + 1
                    &&& final(self).buffer@.drop_last() == old(self).buffer@
                    &&& listed(*d, final(self).buffer@.last())
                },
                (Some(d), Some(chunk)) => {
                    &&& final(self).buffer@.len() == 0
                    &&& chunk@.len() == old(self).batch
                    &&& chunk@.drop_last() == old(self).buffer@
                    &&& listed(*d, chunk@.last())
                },
            },
    {
        match dirent {
            None => None,
            Some(d) => {
                self.buffer.push(entry_from(d));
                assert(self.buffer@.drop_last() =~= old(self).buffer@);
                if self.buffer.len() >= self.batch {
                    let mut chunk: Vec<Entry> = Vec::new();
                    core::mem::swap(&mut self.buffer, &mut chunk);
                    Some(chunk)
                } else {
                    None
                }
            },
        }
    }

    /// The last, partial batch, if anything is left in the buffer.
    pub fn finish(&mut self) -> (r: Option<Vec<Entry>>)
        requires
            old(self).wf(),
        ensures
            final(self).wf(),
            final(self).batch == old(self).batch,
            final(self).buffer@.len() == 0,
            match r {
                Some(chunk) => chunk@ == old(self).buffer@ && chunk@.len() > 0,
                None => old(self).buffer@.len() == 0,
            },
    {
        if self.buffer.len() == 0 {
            return None;
        }
        let mut chunk: Vec<Entry> = Vec::new();
        core::mem::swap(&mut self.buffer, &mut chunk);
        Some(chunk)
    }
}

/// The entries of a list of batches, in order.
pub open spec fn flat(chunks: Seq<Vec<Entry>>) -> Seq<Entry>
    decreases chunks.len(),
{
    if chunks.len() == 0 {
        seq![]
    } else {
        flat(chunks.drop_last()) + chunks.last()@
    }
}

/// Whether a list of batches delivers `ds`: nothing is lost, reordered or repeated,
/// and every batch is full except possibly the last, which is not empty.
pub open spec fn delivers(chunks: Seq<Vec<Entry>>, ds: Seq<Dirent>, batch: int) -> bool {
    &&& lists(ds, flat(chunks))
    &&& forall|i: int|
        0 <= i < chunks.len() ==> 1 <= (#[trigger] chunks[i])@.len() <= batch && (i + 1
            < chunks.len() ==> chunks[i]@.len() == batch)
}

/// The batch size that is used for a requested one.
pub open spec fn batch_size(batch: usize) -> int {
    if batch == 0 {
        1
    } else {
        batch as int
    }
}

/// Deliver a directory in batches of up to `batch` entries. Each batch is offered to
/// `on_batch`; `false` from it abandons the rest. Entries that could not be read are
/// skipped. The batches that were offered come back.
pub fn read_dir_batched<F: Fn(&Vec<Entry>) -> bool>(
    listing: &Vec<Option<Dirent>>,
    batch: usize,
    on_batch: F,
) -> (r: Vec<Vec<Entry>>)
    requires
        forall|c: &Vec<Entry>| call_requires(on_batch, (c,)),
    ensures
        exists|n: int|
            #![trigger listing@.take(n)]
            0 <= n <= listing@.len() && delivers(
                r@,
                readable(listing@.take(n)),
                batch_size(batch),
            ) && (n < listing@.len() ==> r@.len() > 0 && r@.last()@.len() == batch_size(batch)
                && call_ensures(on_batch, (&r@.last(),), false)),
        forall|i: int|
            0 <= i < r@.len() - 1 ==> call_ensures(on_batch, (#[trigger] &r@[i],), true),
{
    let mut out: Vec<Vec<Entry>> = Vec::new();
    let mut batcher = DirBatcher::new(batch);
    assert(listing@.take(0) =~= Seq::<Option<Dirent>>::empty());
    let mut i: usize = 0;
    while i < listing.len()
        invariant
            forall|c: &Vec<Entry>| call_requires(on_batch, (c,)),
            i <= listing@.len(),
            batcher.wf(),
            batcher.batch == batch_size(batch),
            lists(readable(listing@.take(i as int)), flat(out@) + batcher.buffer@),
            forall|k: int| 0 <= k < out@.len() ==> (#[trigger] out@[k])@.len() == batch_size(batch),
            forall|k: int|
                0 <= k < out@.len() ==> call_ensures(on_batch, (#[trigger] &out@[k],), true),
        decreases listing@.len() - i,
    {
        let ghost taken = readable(listing@.take(i as int));
        let ghost gathered = flat(out@) + batcher.buffer@;
        let ghost kept = out@;
        let ghost pending = batcher.buffer@;
        proof {
            assert(listing@.take(i + 1).drop_last() =~= listing@.take(i as int));
            assert(listing@.take(i + 1).last() == listing@[i as int]);
        }
        match batcher.push(&listing[i]) {
            Some(chunk) => {
                let go_on: bool = on_batch(&chunk);
                let ghost full = chunk@;
                out.push(chunk);
                proof {
                    assert(out@.drop_last() =~= kept);
                    assert(full =~= pending.push(full.last()));
                    assert(flat(out@) =~= gathered.push(full.last()));
                    assert(flat(out@) + batcher.buffer@ =~= flat(out@));
                }
                if !go_on {
                    assert(delivers(
                        out@,
                        readable(listing@.take(i + 1)),
                        batch_size(batch),
                    ));
                    return out;
                }
            },
            None => {
                proof {
                    if listing@[i as int] is Some {
                        assert(batcher.buffer@ =~= pending.push(batcher.buffer@.last()));
                        assert(flat(out@) + batcher.buffer@ =~= gathered.push(
                            batcher.buffer@.last(),
                        ));
                    }
                }
            },
        }
        i += 1;
    }
    let ghost gathered = flat(out@) + batcher.buffer@;
    let ghost kept = out@;
    let ghost pending = batcher.buffer@;
    match batcher.finish() {
        Some(chunk) => {
            let _ = on_batch(&chunk);
            out.push(chunk);
            proof {
                assert(out@.drop_last() =~= kept);
                assert(flat(out@) =~= gathered);
            }
        },
        None => {
            assert(flat(out@) =~= gathered);
        },
    }
    assert(delivers(out@, readable(listing@.take(i as int)), batch_size(batch)));
    out
}

/// Collect an entire directory.
pub fn read_dir_all(listing: &Vec<Option<Dirent>>) -> (r: Vec<Entry>)
    ensures
        lists(readable(listing@), r@),
{
    let mut all: Vec<Entry> = Vec::new();
    assert(listing@.take(0) =~= Seq::<Option<Dirent>>::empty());
    for i in 0..listing.len()
        invariant
            lists(readable(listing@.take(i as int)), all@),
    {
        assert(listing@.take(i + 1).drop_last() =~= listing@.take(i as int));
        assert(listing@.take(i + 1).last() == listing@[i as int]);
        if let Some(d) = &listing[i] {
            all.push(entry_from(d));
        }
    }
    assert(listing@.take(listing@.len() as int) =~= listing@);
    all
}

/// Collect only the subdirectories of a directory, skipping files.
pub fn read_subdirs(listing: &Vec<Option<Dirent>>) -> (r: Vec<Entry>)
    ensures
        lists(readable_dirs(listing@), r@),
        forall|i: int| 0 <= i < r@.len() ==> (#[trigger] r@[i]).kind == EntryKind::Directory,
{
    let mut dirs: Vec<Entry> = Vec::new();
    let ghost p = |d: Dirent| d.is_dir;
    proof {
        assert(listing@.take(0) =~= Seq::<Option<Dirent>>::empty());
        reveal(Seq::filter);
        assert(Seq::<Dirent>::empty().filter(p) =~= Seq::<Dirent>::empty());
    }
    for i in 0..listing.len()
        invariant
            p == (|d: Dirent| d.is_dir),
            lists(readable(listing@.take(i as int)).filter(p), dirs@),
            forall|k: int| 0 <= k < dirs@.len() ==> (#[trigger] dirs@[k]).kind
                == EntryKind::Directory,
    {
        proof {
            let before = readable(listing@.take(i as int));
            assert(listing@.take(i + 1).drop_last() =~= listing@.take(i as int));
            assert(listing@.take(i + 1).last() == listing@[i as int]);
            if listing@[i as int] is Some {
                let d = listing@[i as int]->0;
                reveal(Seq::filter);
                assert(before.push(d).drop_last() =~= before);
            }
        }
        if let Some(d) = &listing[i] {
            if d.is_dir {
                dirs.push(entry_from(d));
            }
        }
    }
    assert(listing@.take(listing@.len() as int) =~= listing@);
    dirs
}

/// Nothing that could be read is lost: the entries that were read are listed in their order, and
/// those that could not be are left out.
pub proof fn law_readable_entries_are_listed(listing: Seq<Option<Dirent>>)
    ensures
        readable(listing) == listing.filter(|d: Option<Dirent>| d is Some).map_values(
            |d: Option<Dirent>| d->0,
        ),
    decreases listing.len(),
{
    reveal(Seq::filter);
    let keep = |d: Option<Dirent>| d is Some;
    let open = |d: Option<Dirent>| d->0;
    if listing.len() > 0 {
        let t = listing.drop_last();
        law_readable_entries_are_listed(t);
        if listing.last() is Some {
            assert(listing.filter(keep) =~= t.filter(keep).push(listing.last()));
        } else {
            assert(listing.filter(keep) =~= t.filter(keep));
        }
    }
    assert(readable(listing) =~= listing.filter(keep).map_values(open));
}

/// An entry says of itself what was read of it: its name, its path, whether it is a folder, its
/// times, its attributes, and, for a file, its size.
pub proof fn law_entry_says_what_was_read(d: Dirent, e: Entry)
    requires
        listed(d, e),
    ensures
        e.name@ == d.name@,
        e.path@ == d.path@,
        e.kind == EntryKind::Directory <==> d.is_dir,
        !d.is_dir ==> e.size == d.len,
        d.is_dir ==> e.size == 0,
        e.modified == d.modified,
        e.created == d.created,
        e.attrs.readonly <==> d.attributes & 1 != 0,
        e.attrs.hidden <==> d.attributes & 2 != 0,
        e.attrs.system <==> d.attributes & 4 != 0,
        e.attrs.reparse <==> d.attributes & 1024 != 0,
{
}

/// Of the entries that were read, the subdirectories are those that are directories, in their
/// order.
pub proof fn law_subdirectories_are_directories(listing: Seq<Option<Dirent>>)
    ensures
        readable_dirs(listing) == readable(listing).filter(|d: Dirent| d.is_dir),
        forall|i: int|
            0 <= i < readable_dirs(listing).len() ==> (#[trigger] readable_dirs(listing)[i]).is_dir,
        forall|i: int|
            0 <= i < readable(listing).len() && (#[trigger] readable(listing)[i]).is_dir
                ==> readable_dirs(listing).contains(readable(listing)[i]),
{
    lemma_filtered(readable(listing));
}

proof fn lemma_filtered(all: Seq<Dirent>)
    ensures
        ({
            let kept = all.filter(|d: Dirent| d.is_dir);
            &&& forall|i: int| 0 <= i < kept.len() ==> (#[trigger] kept[i]).is_dir
            &&& forall|i: int|
                0 <= i < all.len() && (#[trigger] all[i]).is_dir ==> kept.contains(all[i])
        }),
    decreases all.len(),
{
    reveal(Seq::filter);
    if all.len() > 0 {
        let t = all.drop_last();
        lemma_filtered(t);
        let keep = |d: Dirent| d.is_dir;
        let before = t.filter(keep);
        let kept = all.filter(keep);
        assert forall|i: int| 0 <= i < all.len() && (#[trigger] all[i]).is_dir implies kept.contains(
            all[i],
        ) by {
            if i < t.len() {
                assert(t[i] == all[i]);
                assert(before.contains(t[i]));
                let k = choose|k: int| 0 <= k < before.len() && before[k] == t[i];
                assert(kept[k] == all[i]);
            } else {
                assert(kept[before.len() as int] == all[i]);
            }
        }
        assert forall|i: int| 0 <= i < kept.len() implies (#[trigger] kept[i]).is_dir by {
            if i < before.len() {
                assert(kept[i] == before[i]);
            }
        }
    }
}

} // verus!
