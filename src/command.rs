use crate::scan::bytes_equal;
use vstd::prelude::*;
use vstd::string::StringSliceAdditionalSpecFns;

verus! {

/// The operations a command line can ask of the store.
#[derive(Clone, Copy, Debug, PartialEq, Eq, Structural)]
pub enum Command {
    Init,
    CatFile,
    HashObject,
    LsTree,
    WriteTree,
    Unknown,
}

/// `init`, `cat-file`, `hash-object`, `ls-tree` and `write-tree` in ASCII.
pub open spec fn command_name(c: Command) -> Seq<u8> {
    match c {
        Command::Init => seq![105u8, 110u8, 105u8, 116u8],
        Command::CatFile => seq![99u8, 97u8, 116u8, 45u8, 102u8, 105u8, 108u8, 101u8],
        Command::HashObject => seq![
            104u8,
            97u8,
            115u8,
            104u8,
            45u8,
            111u8,
            98u8,
            106u8,
            101u8,
            99u8,
            116u8,
        ],
        Command::LsTree => seq![108u8, 115u8, 45u8, 116u8, 114u8, 101u8, 101u8],
        Command::WriteTree => seq![119u8, 114u8, 105u8, 116u8, 101u8, 45u8, 116u8, 114u8, 101u8, 101u8],
        Command::Unknown => Seq::empty(),
    }
}

/// The command whose name is exactly `b`, or `Unknown`.
pub open spec fn command_of(b: Seq<u8>) -> Command {
    if b == command_name(Command::Init) {
        Command::Init
    } else if b == command_name(Command::CatFile) {
        Command::CatFile
    } else if b == command_name(Command::HashObject) {
        Command::HashObject
    } else if b == command_name(Command::LsTree) {
        Command::LsTree
    } else if b == command_name(Command::WriteTree) {
        Command::WriteTree
    } else {
        Command::Unknown
    }
}

impl Command {
    /// The command named by `arg`; any other text is `Unknown`.
    pub fn from(arg: &str) -> (r: Command)
        ensures
            r == command_of(arg.spec_bytes()),
    {
        let a = arg.as_bytes();
        let init: Vec<u8> = vec![105u8, 110u8, 105u8, 116u8];
        let cat_file: Vec<u8> = vec![99u8, 97u8, 116u8, 45u8, 102u8, 105u8, 108u8, 101u8];
        let hash_object: Vec<u8> = vec![
            104u8,
            97u8,
            115u8,
            104u8,
            45u8,
            111u8,
            98u8,
            106u8,
            101u8,
            99u8,
            116u8,
        ];
        let ls_tree: Vec<u8> = vec![108u8, 115u8, 45u8, 116u8, 114u8, 101u8, 101u8];
        let write_tree: Vec<u8> = vec![119u8, 114u8, 105u8, 116u8, 101u8, 45u8, 116u8, 114u8, 101u8, 101u8];
        assert(init@ =~= command_name(Command::Init));
        assert(cat_file@ =~= command_name(Command::CatFile));
        assert(hash_object@ =~= command_name(Command::HashObject));
        assert(ls_tree@ =~= command_name(Command::LsTree));
        assert(write_tree@ =~= command_name(Command::WriteTree));
        if bytes_equal(a, init.as_slice()) {
            Command::Init
        } else if bytes_equal(a, cat_file.as_slice()) {
            Command::CatFile
        } else if bytes_equal(a, hash_object.as_slice()) {
            Command::HashObject
        } else if bytes_equal(a, ls_tree.as_slice()) {
            Command::LsTree
        } else if bytes_equal(a, write_tree.as_slice()) {
            Command::WriteTree
        } else {
            Command::Unknown
        }
    }
}

} // verus!
