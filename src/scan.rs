use vstd::prelude::*;
use crate::parse::{DynHashFile, file_name_of, parse_dyn_hash_file_path, parse_name};

verus! {

/// The hashed files that a list of file paths holds, in order.
pub open spec fn parsed_files(paths: Seq<Seq<char>>) -> Seq<(Seq<char>, Seq<char>, Seq<char>)>
    decreases paths.len(),
{
    if paths.len() == 0 {
        seq![]
    } else {
        let rest = parsed_files(paths.drop_last());
        match parse_name(file_name_of(paths.last())) {
            Some(t) => rest.push(t),
            None => rest,
        }
    }
}

/// The parts of each file.
pub open spec fn parts_of(fs: Seq<DynHashFile>) -> Seq<(Seq<char>, Seq<char>, Seq<char>)> {
    fs.map_values(|f: DynHashFile| (f.prefix@, f.hash@, f.ext@))
}

/// An iterative walk over a build output tree, kept as a stack of
/// directories still to be listed and the hashed files found so far.
/// Whoever lists the directories asks for the next one with `next_dir`
/// and reports each of its entries with `visit_entry`.
pub struct HashFileScan {
    pending: Vec<String>,
    found: Vec<DynHashFile>,
    files_seen: Ghost<Seq<Seq<char>>>,
}

impl HashFileScan {
    /// The directories still to be listed, the last one next.
    pub closed spec fn pending(&self) -> Seq<Seq<char>> {
        self.pending@.map_values(|p: String| p@)
    }

    /// The paths of the files reported so far, in order.
    pub closed spec fn files_seen(&self) -> Seq<Seq<char>> {
        self.files_seen@
    }

    /// The hashed files found so far.
    pub closed spec fn found(&self) -> Seq<DynHashFile> {
        self.found@
    }

    /// The files found are exactly the hashed ones among the files reported,
    /// in the order reported, each well formed.
    pub closed spec fn wf(&self) -> bool {
        &&& parts_of(self.found@) == parsed_files(self.files_seen@)
        &&& forall|k: int| 0 <= k < self.found@.len() ==> (#[trigger] self.found@[k]).wf()
    }

    /// A walk that starts at `root`.
    pub fn new(root: String) -> (r: Self)
        ensures
            r.wf(),
            r.pending() == seq![root@],
            r.files_seen() == Seq::<Seq<char>>::empty(),
            r.found() == Seq::<DynHashFile>::empty(),
    {
        let mut pending: Vec<String> = Vec::new();
        pending.push(root);
        let r = HashFileScan { pending, found: Vec::new(), files_seen: Ghost(Seq::empty()) };
        assert(r.pending() =~= seq![root@]);
        assert(parts_of(r.found@) =~= Seq::empty());
        r
    }

    /// The directory to list next: the one added last.
    pub fn next_dir(&mut self) -> (r: Option<String>)
        requires
            old(self).wf(),
        ensures
            final(self).wf(),
            final(self).files_seen() == old(self).files_seen(),
            final(self).found() == old(self).found(),
            old(self).pending().len() == 0 ==> r is None && final(self).pending() == old(self).pending(),
            old(self).pending().len() > 0 ==> r is Some && r->Some_0@ == old(self).pending().last()
                && final(self).pending() == old(self).pending().drop_last(),
    {
        let r = self.pending.pop();
        assert(self.pending() =~= old(self).pending().drop_last() || old(self).pending().len() == 0);
        r
    }

    /// Reports an entry of the directory being listed: a directory is
    /// listed later, a file is kept if its name is that of a hashed file.
    pub fn visit_entry(&mut self, path: String, is_dir: bool)
        requires
            old(self).wf(),
        ensures
            final(self).wf(),
            is_dir ==> final(self).pending() == old(self).pending().push(path@) && final(self).files_seen()
                == old(self).files_seen() && final(self).found() == old(self).found(),
            !is_dir ==> final(self).pending() == old(self).pending() && final(self).files_seen()
                == old(self).files_seen().push(path@),
            !is_dir ==> match parse_name(file_name_of(path@)) {
                Some(t) => final(self).found().len() == old(self).found().len() + 1 && final(self).found().drop_last()
                    == old(self).found() && parts_of(final(self).found()).last() == t,
                None => final(self).found() == old(self).found(),
            },
    {
        if is_dir {
            let ghost p = path@;
            self.pending.push(path);
            assert(self.pending() =~= old(self).pending().push(p));
        } else {
            let ghost p = path@;
            let parsed = parse_dyn_hash_file_path(path.as_str());
            self.files_seen = Ghost(self.files_seen@.push(p));
            assert(self.files_seen@.drop_last() =~= old(self).files_seen@);
            match parsed {
                Some(f) => {
                    self.found.push(f);
                    assert(self.found@.drop_last() =~= old(self).found@);
                    assert(parts_of(self.found@) =~= parts_of(old(self).found@).push(
                        (f.prefix@, f.hash@, f.ext@),
                    ));
                },
                None => {},
            }
        }
    }

    /// The hashed files found, in the order their paths were reported.
    pub fn into_found(self) -> (r: Vec<DynHashFile>)
        requires
            self.wf(),
        ensures
            r@ == self.found(),
            parts_of(r@) == parsed_files(self.files_seen()),
            forall|k: int| 0 <= k < r@.len() ==> (#[trigger] r@[k]).wf(),
    {
        self.found
    }
}

} // verus!
