//! Carrying out commands on the allocator.

use vstd::prelude::*;
use crate::block::MemoryBlock;
use crate::command::Command;
use crate::command::CommandView;
use crate::manager::MemoryError;
use crate::manager::MemoryManager;
use crate::model::ManagerView;
use crate::model::Operation;

verus! {

/// The answer to a command.
#[derive(Debug, PartialEq, Eq)]
pub enum Reply {
    /// The line was blank: nothing was asked.
    Nothing,
    /// The allocation succeeded; the new block has this identifier.
    Allocated { id: usize },
    /// No free block is large enough for the allocation.
    OutOfMemory,
    /// The allocation asks for no bytes, or for more bytes than it brings
    /// data, or no identifier is left to issue.
    Rejected,
    /// The block was released.
    Deleted { id: usize },
    /// The bytes of the block that was looked up or read.
    Found { data: Vec<u8> },
    /// The block was written to.
    Updated { id: usize },
    /// No block is allocated under the identifier.
    NotFound { id: usize },
    /// The data is longer than the block that it was to be written to.
    TooLarge { id: usize },
    /// The report of every block.
    Listing { blocks: Vec<MemoryBlock> },
    /// The line is no command: its verb is unknown, it has the wrong number
    /// of words, or its size or identifier is no number.
    Malformed,
}

impl CommandView {
    /// The operation that the command asks for, where it asks for a change.
    pub open spec fn operation(self) -> Option<Operation> {
        match self {
            CommandView::Insert { size, data } => Some(Operation::Insert { size, data }),
            CommandView::Delete { id } => Some(Operation::Delete { id }),
            CommandView::Update { id, data } => Some(Operation::Update { id, data }),
            _ => None,
        }
    }
}

impl ManagerView {
    /// The state after the command: that after its operation, where it asks
    /// for one that the state admits; else the same state.
    pub open spec fn after(self, command: CommandView) -> ManagerView {
        match command.operation() {
            Some(op) => if self.admits(op) {
                self.step(op)
            } else {
                self
            },
            None => self,
        }
    }

    /// Whether `reply` is the answer to the command in this state.
    pub open spec fn answers(self, command: CommandView, reply: Reply) -> bool {
        match command {
            CommandView::Blank => reply == Reply::Nothing,
            CommandView::Insert { size, data } => {
                let op = Operation::Insert { size, data };
                if !self.admits(op) {
                    reply == Reply::Rejected
                } else if self.can_fit(size) {
                    reply == (Reply::Allocated { id: self.next_id })
                } else {
                    reply == Reply::OutOfMemory
                }
            },
            CommandView::Delete { id } => if self.allocated.contains_key(id) {
                reply == (Reply::Deleted { id })
            } else {
                reply == (Reply::NotFound { id })
            },
            CommandView::Find { id } | CommandView::Read { id } => if self.allocated.contains_key(
                id,
            ) {
                reply is Found && reply->data@ == self.contents(id)
            } else {
                reply == (Reply::NotFound { id })
            },
            CommandView::Update { id, data } => if !self.allocated.contains_key(id) {
                reply == (Reply::NotFound { id })
            } else if data.len() > self.allocated[id].size {
                reply == (Reply::TooLarge { id })
            } else {
                reply == (Reply::Updated { id })
            },
            CommandView::Dump => reply is Listing && self.is_listing(reply->blocks@),
            CommandView::Incomplete { verb } => reply == Reply::Malformed,
            CommandView::NotNumeric { verb } => reply == Reply::Malformed,
            CommandView::Unknown { word } => reply == Reply::Malformed,
        }
    }
}

impl MemoryManager {
    /// Carries out one command and answers it.
    pub fn execute(&mut self, command: &Command) -> (reply: Reply)
        requires
            old(self).wf(),
        ensures
            final(self).wf(),
            final(self)@ == old(self)@.after(command@),
            old(self)@.answers(command@, reply),
    {
        match command {
            Command::Blank => Reply::Nothing,
            Command::Insert { size, data } => {
                if *size == 0 || data.len() < *size || self.next_id() == usize::MAX {
                    return Reply::Rejected;
                }
                match self.insert(*size, data.as_slice()) {
                    Some(id) => Reply::Allocated { id },
                    None => Reply::OutOfMemory,
                }
            },
            Command::Delete { id } => {
                match self.delete(*id) {
                    Ok(_) => Reply::Deleted { id: *id },
                    Err(_) => Reply::NotFound { id: *id },
                }
            },
            Command::Find { id } => {
                match self.find(*id) {
                    Some(bytes) => Reply::Found { data: vstd::slice::slice_to_vec(bytes) },
                    None => Reply::NotFound { id: *id },
                }
            },
            Command::Read { id } => {
                match self.read(*id) {
                    Ok(bytes) => Reply::Found { data: vstd::slice::slice_to_vec(bytes) },
                    Err(_) => Reply::NotFound { id: *id },
                }
            },
            Command::Update { id, data } => {
                match self.update(*id, data.as_slice()) {
                    Ok(_) => Reply::Updated { id: *id },
                    Err(MemoryError::NotFound) => Reply::NotFound { id: *id },
                    Err(MemoryError::TooLarge) => Reply::TooLarge { id: *id },
                }
            },
            Command::Dump => Reply::Listing { blocks: self.dump() },
            Command::Incomplete { verb } => Reply::Malformed,
            Command::NotNumeric { verb } => Reply::Malformed,
            Command::Unknown { word } => Reply::Malformed,
        }
    }
}

} // verus!
