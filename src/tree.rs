use vstd::prelude::*;

use crate::error::FsError;
use crate::model::{
    lemma_index_of_name, lemma_pushed, lemma_size_additive, lemma_popped, lemma_replace_active, lemma_with_dir,
    lemma_with_file, saturate, total, Node,
};

verus! {

/// A file held by a directory; only its size matters.
pub struct DataFile {
    pub content_size: u64,
}

/// One directory of the reconstructed tree. It owns its subdirectories and
/// never refers to its parent; `path_directory` names the child on the way to
/// the cursor, if the cursor lies below this directory.
pub struct Directory {
    name: String,
    held_files: Vec<DataFile>,
    sub_directories: Vec<Directory>,
    path_directory: Option<String>,
}

pub open spec fn sizes_of_files(files: Seq<DataFile>) -> Seq<u64> {
    files.map_values(|f: DataFile| f.content_size)
}

pub open spec fn marker_view(m: Option<String>) -> Option<Seq<char>> {
    match m {
        Some(s) => Some(s@),
        None => None,
    }
}

impl Directory {
    /// The abstract tree that this directory stands for.
    pub closed spec fn view(&self) -> Node
        decreases self,
    {
        Node {
            name: self.name@,
            files: sizes_of_files(self.held_files@),
            children: Seq::new(
                self.sub_directories@.len(),
                |i: int|
                    if 0 <= i < self.sub_directories@.len() {
                        self.sub_directories@[i].view()
                    } else {
                        arbitrary()
                    },
            ),
            active: marker_view(self.path_directory),
        }
    }
}

impl Directory {
    proof fn lemma_view(&self)
        ensures
            self@.name == self.name@,
            self@.files == sizes_of_files(self.held_files@),
            self@.active == marker_view(self.path_directory),
            self@.children.len() == self.sub_directories@.len(),
            forall|i: int|
                0 <= i < self.sub_directories@.len() ==> #[trigger] self@.children[i]
                    == self.sub_directories@[i]@,
    {
    }

    /// Two directories that differ only in the subdirectory at `k`.
    proof fn lemma_reattached(a: &Directory, b: &Directory, k: int)
        requires
            0 <= k < a.sub_directories@.len(),
            b.name == a.name,
            b.held_files == a.held_files,
            b.path_directory == a.path_directory,
            b.sub_directories@ == a.sub_directories@.update(k, b.sub_directories@[k]),
        ensures
            b@ == (Node { children: a@.children.update(k, b.sub_directories@[k]@), ..a@ }),
    {
        a.lemma_view();
        b.lemma_view();
        assert(b@.children =~= a@.children.update(k, b.sub_directories@[k]@));
    }

    /// The directory's name.
    pub fn name(&self) -> (r: &String)
        ensures
            r@ == self@.name,
    {
        proof {
            self.lemma_view();
        }
        &self.name
    }

    /// The sizes of the files held directly here, in order.
    pub fn file_sizes(&self) -> (r: Vec<u64>)
        ensures
            r@ == self@.files,
    {
        proof {
            self.lemma_view();
        }
        let mut r: Vec<u64> = Vec::new();
        let mut i: usize = 0;
        while i < self.held_files.len()
            invariant
                i <= self.held_files@.len(),
                self@.files == sizes_of_files(self.held_files@),
                r@ =~= self@.files.take(i as int),
            decreases self.held_files@.len() - i,
        {
            r.push(self.held_files[i].content_size);
            i = i + 1;
        }
        proof {
            assert(self@.files.take(i as int) =~= self@.files);
        }
        r
    }

    /// The name of the marked subdirectory, if the cursor lies below.
    pub fn path_directory(&self) -> (r: &Option<String>)
        ensures
            marker_view(*r) == self@.active,
    {
        proof {
            self.lemma_view();
        }
        &self.path_directory
    }

    /// The subdirectories, in order.
    pub fn sub_directories(&self) -> (r: &Vec<Directory>)
        ensures
            r@.len() == self@.children.len(),
            forall|i: int| 0 <= i < r@.len() ==> #[trigger] r@[i]@ == self@.children[i],
    {
        proof {
            self.lemma_view();
        }
        &self.sub_directories
    }

    /// An empty directory named `name`, with no marker.
    pub fn new(name: String) -> (r: Directory)
        ensures
            r@ == Node::leaf(name@),
    {
        let r = Directory {
            name,
            held_files: Vec::new(),
            sub_directories: Vec::new(),
            path_directory: None,
        };
        proof {
            r.lemma_view();
            assert(r@.files =~= Seq::<u64>::empty());
            assert(r@.children =~= Seq::<Node>::empty());
        }
        r
    }

    /// The position of the subdirectory named `name`, if there is one.
    fn position_of(&self, name: &String) -> (r: Option<usize>)
        requires
            self@.names_unique(),
        ensures
            r is Some <==> self@.has_child(name@),
            r matches Some(k) ==> k == self@.child_index(name@),
    {
        proof {
            self.lemma_view();
        }
        let mut i: usize = 0;
        while i < self.sub_directories.len()
            invariant
                i <= self.sub_directories@.len(),
                self@.names_unique(),
                self@.children.len() == self.sub_directories@.len(),
                forall|j: int|
                    0 <= j < self.sub_directories@.len() ==> #[trigger] self@.children[j]
                        == self.sub_directories@[j]@,
                forall|j: int| 0 <= j < i ==> #[trigger] self@.children[j].name != name@,
            decreases self.sub_directories@.len() - i,
        {
            proof {
                self.sub_directories@[i as int].lemma_view();
            }
            if self.sub_directories[i].name == *name {
                proof {
                    lemma_index_of_name(self@, i as int);
                }
                return Some(i);
            }
            i = i + 1;
        }
        None
    }

    /// The position of the marked subdirectory, if the cursor lies below.
    fn pathed_index(&self) -> (r: Option<usize>)
        requires
            self@.wf(),
        ensures
            !self@.descends() ==> r is None,
            self@.descends() ==> r is Some && r->0 == self@.active_index(),
    {
        proof {
            self.lemma_view();
        }
        match &self.path_directory {
            Some(path) => self.position_of(path),
            None => None,
        }
    }

    /// Detaches the marked subdirectory and hands it back; the marker itself
    /// stays. Without a marker nothing changes.
    pub fn get_pathed_directory(&mut self) -> (r: Option<Directory>)
        requires
            old(self)@.wf(),
        ensures
            !old(self)@.descends() ==> r is None && final(self)@ == old(self)@,
            old(self)@.descends() ==> ({
                let k = old(self)@.active_index();
                &&& r matches Some(c) && c@ == old(self)@.children[k]
                &&& final(self)@ == Node { children: old(self)@.children.remove(k), ..old(self)@ }
            }),
    {
        proof {
            self.lemma_view();
        }
        match self.pathed_index() {
            Some(k) => {
                let c = self.sub_directories.remove(k);
                proof {
                    self.lemma_view();
                    assert(self@.children =~= old(self)@.children.remove(k as int));
                    assert(self@.name == old(self)@.name);
                    assert(self@.files == old(self)@.files);
                    assert(self@.active == old(self)@.active);
                    assert(c@ == old(self)@.children[k as int]);
                    assert(k as int == old(self)@.active_index());
                    assert(self@ == Node { children: old(self)@.children.remove(k as int), ..old(self)@ });
                }
                Some(c)
            },
            None => None,
        }
    }

    /// Adds a file to the directory the cursor is on.
    pub fn push_file(&mut self, pushed_file: DataFile)
        requires
            old(self)@.wf(),
        ensures
            final(self)@ == old(self)@.with_file(pushed_file.content_size),
            final(self)@.wf(),
        decreases old(self)@,
    {
        proof {
            self.lemma_view();
            lemma_with_file(self@, pushed_file.content_size);
        }
        match self.pathed_index() {
            Some(k) => {
                let mut c = self.sub_directories.remove(k);
                proof {
                    assert(c@ == old(self)@.children[k as int]);
                    assert(c@.wf());
                }
                c.push_file(pushed_file);
                self.sub_directories.insert(k, c);
                proof {
                    self.lemma_view();
                    assert(self@.children =~= old(self)@.children.update(
                        k as int,
                        old(self)@.children[k as int].with_file(pushed_file.content_size),
                    ));
                    assert(self@.name == old(self)@.name);
                    assert(self@.files == old(self)@.files);
                    assert(self@.active == old(self)@.active);
                    assert(old(self)@.descends());
                    assert(k as int == old(self)@.active_index());
                    assert(self@ == old(self)@.with_file(pushed_file.content_size));
                }
            },
            None => {
                let ghost s = pushed_file.content_size;
                self.held_files.push(pushed_file);
                proof {
                    self.lemma_view();
                    assert(self@.files =~= old(self)@.files.push(s));
                    assert(self@.children =~= old(self)@.children);
                    assert(self@ == old(self)@.with_file(s));
                }
            },
        }
    }
}

impl Directory {
    /// Attaches `pushed_directory` below the directory the cursor is on. A
    /// name that is already taken there is refused and nothing changes.
    pub fn push_directory(&mut self, pushed_directory: Directory) -> (r: Result<(), FsError>)
        requires
            old(self)@.wf(),
            pushed_directory@.wf(),
            pushed_directory@.active is None,
        ensures
            r is Err <==> old(self)@.current().has_child(pushed_directory@.name),
            r is Err ==> r == Err::<(), FsError>(FsError::DuplicateDirectory) && final(self)@
                == old(self)@,
            r is Ok ==> final(self)@ == old(self)@.with_dir(pushed_directory@),
            final(self)@.wf(),
        decreases old(self)@,
    {
        proof {
            self.lemma_view();
            pushed_directory.lemma_view();
        }
        match self.pathed_index() {
            Some(k) => {
                let ghost before = *self;
                let mut c = self.sub_directories.remove(k);
                proof {
                    assert(c@ == old(self)@.children[k as int]);
                    assert(c@.wf());
                }
                let r = c.push_directory(pushed_directory);
                self.sub_directories.insert(k, c);
                proof {
                    assert(self.sub_directories@ =~= before.sub_directories@.update(k as int, c));
                    Directory::lemma_reattached(&before, self, k as int);
                    if r is Ok {
                        lemma_with_dir(old(self)@, pushed_directory@);
                    } else {
                        assert(old(self)@.children.update(k as int, c@) =~= old(self)@.children);
                    }
                }
                r
            },
            None => {
                proof {
                    assert(old(self)@.current() == old(self)@);
                }
                match self.position_of(&pushed_directory.name) {
                    Some(_) => Err(FsError::DuplicateDirectory),
                    None => {
                        let ghost c = pushed_directory@;
                        self.sub_directories.push(pushed_directory);
                        proof {
                            lemma_with_dir(old(self)@, c);
                            self.lemma_view();
                            assert(self@.children =~= old(self)@.children.push(c));
                            assert(self@ == old(self)@.with_dir(c));
                        }
                        Ok(())
                    },
                }
            },
        }
    }

    /// Moves the cursor down into the subdirectory `path_name` of the
    /// directory the cursor is on. Without such a subdirectory nothing changes.
    pub fn push_path(&mut self, path_name: String) -> (r: Result<(), FsError>)
        requires
            old(self)@.wf(),
        ensures
            r is Err <==> !old(self)@.current().has_child(path_name@),
            r is Err ==> r == Err::<(), FsError>(FsError::MissingDirectory) && final(self)@
                == old(self)@,
            r is Ok ==> final(self)@ == old(self)@.pushed(path_name@),
            final(self)@.wf(),
        decreases old(self)@,
    {
        proof {
            self.lemma_view();
        }
        match self.pathed_index() {
            Some(k) => {
                let ghost before = *self;
                let ghost name = path_name@;
                let mut c = self.sub_directories.remove(k);
                proof {
                    assert(c@ == old(self)@.children[k as int]);
                    assert(c@.wf());
                }
                let r = c.push_path(path_name);
                self.sub_directories.insert(k, c);
                proof {
                    assert(self.sub_directories@ =~= before.sub_directories@.update(k as int, c));
                    Directory::lemma_reattached(&before, self, k as int);
                    if r is Ok {
                        lemma_pushed(old(self)@, name);
                    } else {
                        assert(old(self)@.children.update(k as int, c@) =~= old(self)@.children);
                    }
                }
                r
            },
            None => {
                proof {
                    assert(old(self)@.current() == old(self)@);
                }
                match self.position_of(&path_name) {
                    None => Err(FsError::MissingDirectory),
                    Some(_) => {
                        let ghost name = path_name@;
                        self.path_directory = Some(path_name);
                        proof {
                            lemma_pushed(old(self)@, name);
                            self.lemma_view();
                            assert(self@.children =~= old(self)@.children);
                            assert(self@ == old(self)@.pushed(name));
                        }
                        Ok(())
                    },
                }
            },
        }
    }

    /// Moves the cursor up one level. At the root this is refused and
    /// nothing changes.
    pub fn pop_path(&mut self) -> (r: Result<(), FsError>)
        requires
            old(self)@.wf(),
        ensures
            r is Err <==> !old(self)@.descends(),
            r is Err ==> r == Err::<(), FsError>(FsError::AscendAboveRoot) && final(self)@
                == old(self)@,
            r is Ok ==> final(self)@ == old(self)@.popped(),
            final(self)@.wf(),
        decreases old(self)@,
    {
        proof {
            self.lemma_view();
        }
        match self.pathed_index() {
            Some(k) => {
                let ghost before = *self;
                let mut c = self.sub_directories.remove(k);
                proof {
                    assert(c@ == old(self)@.children[k as int]);
                    assert(c@.wf());
                    c.lemma_view();
                    lemma_popped(old(self)@);
                }
                if c.path_directory.is_none() {
                    self.sub_directories.insert(k, c);
                    self.path_directory = None;
                    proof {
                        assert(!c@.descends());
                        self.lemma_view();
                        before.lemma_view();
                        assert(self@.children =~= old(self)@.children);
                        assert(self@ == old(self)@.popped());
                    }
                } else {
                    let r = c.pop_path();
                    self.sub_directories.insert(k, c);
                    proof {
                        assert(r is Ok);
                        assert(self.sub_directories@ =~= before.sub_directories@.update(k as int, c));
                        Directory::lemma_reattached(&before, self, k as int);
                    }
                }
                Ok(())
            },
            None => Err(FsError::AscendAboveRoot),
        }
    }

    /// Total size of the files in this directory and all directories below
    /// it, clamped to the range of `u64`.
    pub fn get_size(&self) -> (r: u64)
        ensures
            r == saturate(self@.size()),
        decreases self@,
    {
        proof {
            self.lemma_view();
        }
        let ghost fs = self@.files.map_values(|f: u64| f as nat);
        let mut acc: u64 = 0;
        let mut i: usize = 0;
        while i < self.held_files.len()
            invariant
                i <= self.held_files@.len(),
                fs.len() == self.held_files@.len(),
                fs == self@.files.map_values(|f: u64| f as nat),
                self@.files == sizes_of_files(self.held_files@),
                acc == saturate(total(fs.take(i as int))),
            decreases self.held_files@.len() - i,
        {
            proof {
                assert(fs.take(i + 1).drop_last() =~= fs.take(i as int));
                assert(fs[i as int] == self.held_files@[i as int].content_size);
            }
            acc = acc.saturating_add(self.held_files[i].content_size);
            i = i + 1;
        }
        proof {
            assert(fs.take(i as int) =~= fs);
        }
        let ghost cs = self@.child_sizes();
        let ghost ft = self@.file_total();
        let mut j: usize = 0;
        while j < self.sub_directories.len()
            invariant
                j <= self.sub_directories@.len(),
                cs == self@.child_sizes(),
                cs.len() == self.sub_directories@.len(),
                self@.children.len() == self.sub_directories@.len(),
                forall|t: int|
                    0 <= t < self.sub_directories@.len() ==> #[trigger] self@.children[t]
                        == self.sub_directories@[t]@,
                acc == saturate(ft + total(cs.take(j as int))),
            decreases self.sub_directories@.len() - j,
        {
            proof {
                assert(cs.take(j + 1).drop_last() =~= cs.take(j as int));
                lemma_size_additive(self@);
                assert(cs[j as int] == self.sub_directories@[j as int]@.size());
            }
            let s = self.sub_directories[j].get_size();
            acc = acc.saturating_add(s);
            j = j + 1;
        }
        proof {
            assert(cs.take(j as int) =~= cs);
            lemma_size_additive(self@);
        }
        acc
    }
}

} // verus!
