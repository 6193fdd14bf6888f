use vstd::prelude::*;

use crate::error::FsError;
use crate::model::{lemma_popped, lemma_pushed, lemma_with_dir, lemma_with_file, Node};
use crate::parse::{CommandType, InstructionLine, ListedFile};
use crate::tree::{DataFile, Directory};

verus! {

pub open spec fn root_name() -> Seq<char> {
    seq!['/']
}

pub open spec fn parent_name() -> Seq<char> {
    seq!['.', '.']
}

/// The empty tree that a replay starts from.
pub open spec fn root_node() -> Node {
    Node::leaf(root_name())
}

/// The tree after one instruction, or the reason it cannot be applied.
pub open spec fn step(n: Node, l: InstructionLine) -> Result<Node, FsError> {
    match l {
        InstructionLine::Command(CommandType::List) => Ok(n),
        InstructionLine::Command(CommandType::ChangeDirectory { directory_name }) => {
            let d = directory_name@;
            if d == root_name() {
                Ok(n)
            } else if d == parent_name() {
                if n.descends() {
                    Ok(n.popped())
                } else {
                    Err(FsError::AscendAboveRoot)
                }
            } else if n.current().has_child(d) {
                Ok(n.pushed(d))
            } else {
                Err(FsError::MissingDirectory)
            }
        },
        InstructionLine::ListContent(ListedFile::GeneralFile { size }) => Ok(n.with_file(size)),
        InstructionLine::ListContent(ListedFile::Directory { name }) => {
            if n.current().has_child(name@) {
                Err(FsError::DuplicateDirectory)
            } else {
                Ok(n.with_dir(Node::leaf(name@)))
            }
        },
    }
}

/// The tree that a sequence of instructions builds from the empty root, or
/// the first failure.
pub open spec fn replay(instrs: Seq<InstructionLine>) -> Result<Node, FsError>
    decreases instrs.len(),
{
    if instrs.len() == 0 {
        Ok(root_node())
    } else {
        match replay(instrs.drop_last()) {
            Ok(n) => step(n, instrs.last()),
            Err(e) => Err(e),
        }
    }
}

/// The descents that a sequence of `cd` instructions leaves unmatched.
pub open spec fn net_path(instrs: Seq<InstructionLine>) -> Seq<Seq<char>>
    decreases instrs.len(),
{
    if instrs.len() == 0 {
        Seq::empty()
    } else {
        let p = net_path(instrs.drop_last());
        match instrs.last() {
            InstructionLine::Command(CommandType::ChangeDirectory { directory_name }) => {
                if directory_name@ == root_name() {
                    p
                } else if directory_name@ == parent_name() {
                    p.drop_last()
                } else {
                    p.push(directory_name@)
                }
            },
            _ => p,
        }
    }
}

/// Every tree that a replay builds is well formed, is rooted at `/`, and has
/// its marker chain spell out exactly the descents left unmatched.
pub proof fn lemma_replay_cursor(instrs: Seq<InstructionLine>)
    ensures
        replay(instrs) matches Ok(n) ==> n.wf() && n.name == root_name() && n.cursor()
            == net_path(instrs),
    decreases instrs.len(),
{
    if instrs.len() == 0 {
        let r = root_node();
        assert(r.cursor() =~= Seq::<Seq<char>>::empty());
    } else {
        let pre = instrs.drop_last();
        lemma_replay_cursor(pre);
        if let Ok(n) = replay(pre) {
            match instrs.last() {
                InstructionLine::Command(CommandType::List) => {},
                InstructionLine::Command(CommandType::ChangeDirectory { directory_name }) => {
                    let d = directory_name@;
                    if d == root_name() {
                    } else if d == parent_name() {
                        if n.descends() {
                            lemma_popped(n);
                        }
                    } else if n.current().has_child(d) {
                        lemma_pushed(n, d);
                    }
                },
                InstructionLine::ListContent(ListedFile::GeneralFile { size }) => {
                    lemma_with_file(n, size);
                },
                InstructionLine::ListContent(ListedFile::Directory { name }) => {
                    if !n.current().has_child(name@) {
                        lemma_with_dir(n, Node::leaf(name@));
                    }
                },
            }
        }
    }
}

/// Once a replay fails, the instructions after the failure change nothing.
proof fn lemma_replay_stops(instrs: Seq<InstructionLine>, i: int)
    requires
        0 <= i <= instrs.len(),
        replay(instrs.take(i)) is Err,
    ensures
        replay(instrs) == replay(instrs.take(i)),
    decreases instrs.len(),
{
    if i == instrs.len() {
        assert(instrs.take(i) =~= instrs);
    } else {
        let pre = instrs.drop_last();
        assert(pre.take(i) =~= instrs.take(i));
        lemma_replay_stops(pre, i);
    }
}

/// Replays the instructions against an empty root named `/`.
pub fn construct_file_system(instructions: Vec<InstructionLine>) -> (r: Result<Directory, FsError>)
    ensures
        r matches Ok(d) ==> replay(instructions@) == Ok::<Node, FsError>(d@) && d@.wf(),
        r matches Err(e) ==> replay(instructions@) == Err::<Node, FsError>(e),
{
    proof {
        reveal_strlit("/");
        reveal_strlit("..");
    }
    let mut root = Directory::new("/".to_owned());
    let slash = "/".to_owned();
    let up = "..".to_owned();
    proof {
        assert(slash@ =~= root_name());
        assert(up@ =~= parent_name());
        assert(instructions@.take(0) =~= Seq::<InstructionLine>::empty());
        assert(root@.wf());
    }
    let mut i: usize = 0;
    while i < instructions.len()
        invariant
            i <= instructions@.len(),
            root@.wf(),
            slash@ == root_name(),
            up@ == parent_name(),
            replay(instructions@.take(i as int)) == Ok::<Node, FsError>(root@),
        decreases instructions@.len() - i,
    {
        let ghost before = root@;
        proof {
            assert(instructions@.take(i + 1).drop_last() =~= instructions@.take(i as int));
            assert(instructions@.take(i + 1).last() == instructions@[i as int]);
        }
        match &instructions[i] {
            InstructionLine::Command(CommandType::List) => {},
            InstructionLine::Command(CommandType::ChangeDirectory { directory_name }) => {
                if *directory_name == slash {
                } else if *directory_name == up {
                    match root.pop_path() {
                        Ok(()) => {},
                        Err(e) => {
                        proof {
                            lemma_replay_stops(instructions@, i + 1);
                        }
                        return Err(e);
                    },
                    }
                } else {
                    match root.push_path(directory_name.clone()) {
                        Ok(()) => {},
                        Err(e) => {
                        proof {
                            lemma_replay_stops(instructions@, i + 1);
                        }
                        return Err(e);
                    },
                    }
                }
            },
            InstructionLine::ListContent(ListedFile::GeneralFile { size }) => {
                root.push_file(DataFile { content_size: *size });
            },
            InstructionLine::ListContent(ListedFile::Directory { name }) => {
                let d = Directory::new(name.clone());
                proof {
                    assert(d@.wf());
                }
                match root.push_directory(d) {
                    Ok(()) => {},
                    Err(e) => {
                        proof {
                            lemma_replay_stops(instructions@, i + 1);
                        }
                        return Err(e);
                    },
                }
            },
        }
        i = i + 1;
    }
    proof {
        assert(instructions@.take(i as int) =~= instructions@);
    }
    Ok(root)
}

} // verus!
