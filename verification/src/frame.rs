//! Stack frames, as they are given to a profile.

use crate::library::LibsView;
use crate::process::{kernel_libraries_come_first, resolve_address};
use crate::profile::StringHandle;
use crate::stack_tables::CodeLocation;
use vstd::prelude::*;

verus! {

/// A stack frame.
#[derive(Debug, Clone, Copy, PartialEq, Eq, Structural)]
pub enum Frame {
    /// The address of an instruction, from the instruction pointer.
    InstructionPointer(u64),
    /// The address of the instruction behind a call.
    ReturnAddress(u64),
    /// A frame that has a name of its own.
    Label(StringHandle),
}

impl Frame {
    /// A label is one of the strings of the profile.
    pub open spec fn is_known(self, strings: Seq<Seq<char>>) -> bool {
        self matches Frame::Label(label) ==> label.0 < strings.len()
    }

    /// Where the frame is. The call comes just before the return address.
    pub open spec fn location(
        self,
        kernel: LibsView,
        process: LibsView,
        strings: Seq<Seq<char>>,
    ) -> CodeLocation {
        match self {
            Frame::InstructionPointer(address) => resolve_address(kernel, process, address),
            Frame::ReturnAddress(address) => resolve_address(
                kernel,
                process,
                if address > 0 {
                    (address - 1) as u64
                } else {
                    0
                },
            ),
            Frame::Label(label) => CodeLocation::Label(strings[label.0 as int]),
        }
    }
}

/// A return address stands for the call just before it: it is where an instruction pointer one
/// byte lower is, with all 64 bits of the address.
pub proof fn return_address_is_behind_its_call(
    address: u64,
    kernel: LibsView,
    process: LibsView,
    strings: Seq<Seq<char>>,
)
    ensures
        address > 0 ==> Frame::ReturnAddress(address).location(kernel, process, strings)
            == Frame::InstructionPointer((address - 1) as u64).location(kernel, process, strings),
        Frame::ReturnAddress(0).location(kernel, process, strings)
            == Frame::InstructionPointer(0).location(kernel, process, strings),
{
}

/// A label is known if it is one of the strings, and says what that string says, wherever
/// libraries are loaded. An address is always known.
pub proof fn label_says_its_string(
    index: usize,
    address: u64,
    kernel: LibsView,
    process: LibsView,
    strings: Seq<Seq<char>>,
)
    ensures
        Frame::Label(StringHandle(index)).is_known(strings) <==> index < strings.len(),
        Frame::InstructionPointer(address).is_known(strings),
        Frame::ReturnAddress(address).is_known(strings),
        index < strings.len() ==> Frame::Label(StringHandle(index)).location(
            kernel,
            process,
            strings,
        ) == CodeLocation::Label(strings[index as int]),
{
}

/// An instruction pointer is where the whole of its address is: in a library of the kernel, else
/// in one of the process, else at the address itself.
pub proof fn instruction_pointer_is_where_its_address_is(
    address: u64,
    kernel: LibsView,
    process: LibsView,
    strings: Seq<Seq<char>>,
)
    ensures
        match Frame::InstructionPointer(address).location(kernel, process, strings) {
            CodeLocation::InLib(relative, lib) => kernel.resolve(address) == Some((relative, lib))
                || (kernel.resolve(address) is None && process.resolve(address) == Some(
                (relative, lib),
            )),
            CodeLocation::Unknown(unknown) => unknown == address && kernel.resolve(address) is None
                && process.resolve(address) is None,
            CodeLocation::Label(_) => false,
        },
{
    kernel_libraries_come_first(kernel, process, address);
}

} // verus!
