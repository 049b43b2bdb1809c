//! Label patching: resolves symbolic jump labels to absolute instruction
//! positions and strips the label markers from the stream.

use vstd::prelude::*;
use crate::runtime::{ByteOp, Program};
use crate::table::IdMap;

verus! {

/// A fault raised while patching labels; always the sign of an emitter
/// bug, never of bad user input.
#[derive(Debug, PartialEq, Eq, Structural, Clone, Copy)]
pub enum LinkFault {
    /// An instruction referred to a label with no defining marker.
    UnknownLabel,
}

/// The label table built from a stream: walking from position `i` with
/// `pos` real (non-marker) instructions already seen and `acc` recorded,
/// every marker maps its label to the current real position.
pub open spec fn table_rec(
    code: Seq<ByteOp>,
    i: int,
    pos: usize,
    acc: Map<usize, usize>,
) -> Map<usize, usize>
    decreases code.len() - i,
{
    if i < 0 || i >= code.len() {
        acc
    } else {
        match code[i] {
            ByteOp::Label(lab) => table_rec(code, i + 1, pos, acc.insert(lab, pos)),
            _ => if pos == usize::MAX {
                acc
            } else {
                table_rec(code, i + 1, (pos + 1) as usize, acc)
            },
        }
    }
}

/// The mapping from each label defined in the stream to the zero-based
/// position, counting only real instructions, of its marker.
pub open spec fn label_table(code: Seq<ByteOp>) -> Map<usize, usize> {
    table_rec(code, 0, 0, Map::empty())
}

/// The patched stream from position `i` on, appended to `acc`: markers
/// are dropped, jump, branch and function-value targets are rewritten
/// through `table`, and a target missing from `table` fails the whole
/// pass.
pub open spec fn patch_rec(
    code: Seq<ByteOp>,
    i: int,
    table: Map<usize, usize>,
    acc: Seq<ByteOp>,
) -> Option<Seq<ByteOp>>
    decreases code.len() - i,
{
    if i < 0 || i >= code.len() {
        Some(acc)
    } else {
        match code[i] {
            ByteOp::Label(_) => patch_rec(code, i + 1, table, acc),
            ByteOp::Jump(lab) => if table.contains_key(lab) {
                patch_rec(code, i + 1, table, acc.push(ByteOp::Jump(table[lab])))
            } else {
                None
            },
            ByteOp::BrFalse(lab) => if table.contains_key(lab) {
                patch_rec(code, i + 1, table, acc.push(ByteOp::BrFalse(table[lab])))
            } else {
                None
            },
            ByteOp::PushFunc(lab) => if table.contains_key(lab) {
                patch_rec(code, i + 1, table, acc.push(ByteOp::PushFunc(table[lab])))
            } else {
                None
            },
            op => patch_rec(code, i + 1, table, acc.push(op)),
        }
    }
}

/// The label-free stream equivalent to `code`, or nothing when some
/// instruction refers to a label that no marker defines.
pub open spec fn patched(code: Seq<ByteOp>) -> Option<Seq<ByteOp>> {
    patch_rec(code, 0, label_table(code), Seq::empty())
}

/// The label-patching pass. Builds the label table once, then rewrites
/// the stream once.
pub struct Patch {
    labels: IdMap,
}

impl Patch {
    /// The label table this pass has recorded so far.
    pub closed spec fn view(&self) -> Map<usize, usize> {
        self.labels@
    }

    /// A patcher with an empty label table.
    pub fn new() -> (r: Self)
        ensures
            r@ == Map::<usize, usize>::empty(),
    {
        Patch { labels: IdMap::new() }
    }

    /// Resolves every symbolic label in `program` to its absolute
    /// position and strips the markers.
    ///
    /// Succeeds exactly when every jump, branch and function-value
    /// target has a defining marker; the returned stream is then the
    /// patched one.
    pub fn run(self, program: Program) -> (r: Result<Program, LinkFault>)
        requires
            self@ == Map::<usize, usize>::empty(),
        ensures
            match r {
                Ok(p) => patched(program.code@) == Some(p.code@),
                Err(_) => patched(program.code@) is None,
            },
    {
        let mut this = self;
        this.fill_table(&program);
        this.patch(&program)
    }

    /// Walks the stream once, recording each marker's label at the
    /// position the next real instruction will occupy.
    fn fill_table(&mut self, program: &Program)
        requires
            old(self).labels@ == Map::<usize, usize>::empty(),
        ensures
            final(self).labels@ == label_table(program.code@),
    {
        let code = &program.code;
        let mut pos: usize = 0;
        let mut i: usize = 0;
        while i < code.len()
            invariant
                code@ == program.code@,
                i <= code@.len(),
                pos <= i,
                label_table(code@) == table_rec(code@, i as int, pos, self.labels@),
            decreases code@.len() - i,
        {
            match code[i] {
                ByteOp::Label(label) => {
                    self.labels.insert(label, pos);
                },
                _ => {
                    pos = pos + 1;
                },
            }
            i = i + 1;
        }
    }

    /// Walks the stream again, dropping markers and rewriting targets
    /// through the table built by the first pass.
    fn patch(&self, program: &Program) -> (r: Result<Program, LinkFault>)
        requires
            self.labels@ == label_table(program.code@),
        ensures
            match r {
                Ok(p) => patched(program.code@) == Some(p.code@),
                Err(_) => patched(program.code@) is None,
            },
    {
        let code = &program.code;
        let mut out: Vec<ByteOp> = Vec::new();
        let mut i: usize = 0;
        while i < code.len()
            invariant
                code@ == program.code@,
                i <= code@.len(),
                self.labels@ == label_table(program.code@),
                patched(code@) == patch_rec(code@, i as int, self.labels@, out@),
            decreases code@.len() - i,
        {
            match code[i] {
                ByteOp::Label(_) => {},
                ByteOp::Jump(label) => {
                    match self.labels.get(label) {
                        Some(target) => out.push(ByteOp::Jump(target)),
                        None => {
                            return Err(LinkFault::UnknownLabel);
                        },
                    }
                },
                ByteOp::BrFalse(label) => {
                    match self.labels.get(label) {
                        Some(target) => out.push(ByteOp::BrFalse(target)),
                        None => {
                            return Err(LinkFault::UnknownLabel);
                        },
                    }
                },
                ByteOp::PushFunc(label) => {
                    match self.labels.get(label) {
                        Some(target) => out.push(ByteOp::PushFunc(target)),
                        None => {
                            return Err(LinkFault::UnknownLabel);
                        },
                    }
                },
                op => {
                    out.push(op);
                },
            }
            i = i + 1;
        }
        Ok(Program { code: out })
    }
}

} // verus!
