//! The permission classes of tracked entries and their numeric text.

use vstd::prelude::*;

verus! {

/// The mode of a tree or index entry.
#[derive(Debug, Clone, Copy, PartialEq, Eq, Structural)]
pub enum FileMode {
    /// A regular file, `100644`.
    Regular,
    /// An executable file, `100755`.
    Executable,
    /// A symbolic link, `120000`.
    Symlink,
    /// A subdirectory, `40000`.
    Directory,
}

/// The numeric text of a mode, as ASCII bytes.
pub open spec fn mode_text(m: FileMode) -> Seq<u8> {
    match m {
        FileMode::Regular => seq![49u8, 48, 48, 54, 52, 52],
        FileMode::Executable => seq![49u8, 48, 48, 55, 53, 53],
        FileMode::Symlink => seq![49u8, 50, 48, 48, 48, 48],
        FileMode::Directory => seq![52u8, 48, 48, 48, 48],
    }
}

/// The mode whose numeric text is `t`, if any.
pub open spec fn mode_of_text(t: Seq<u8>) -> Option<FileMode> {
    if t == mode_text(FileMode::Regular) {
        Some(FileMode::Regular)
    } else if t == mode_text(FileMode::Executable) {
        Some(FileMode::Executable)
    } else if t == mode_text(FileMode::Symlink) {
        Some(FileMode::Symlink)
    } else if t == mode_text(FileMode::Directory) {
        Some(FileMode::Directory)
    } else {
        None
    }
}

pub proof fn lemma_mode_text_round_trip(m: FileMode)
    ensures
        mode_of_text(mode_text(m)) == Some(m),
{
    assert(mode_text(FileMode::Regular) != mode_text(FileMode::Executable)) by {
        assert(mode_text(FileMode::Regular)[3] != mode_text(FileMode::Executable)[3]);
    }
    assert(mode_text(FileMode::Regular) != mode_text(FileMode::Symlink)) by {
        assert(mode_text(FileMode::Regular)[1] != mode_text(FileMode::Symlink)[1]);
    }
    assert(mode_text(FileMode::Executable) != mode_text(FileMode::Symlink)) by {
        assert(mode_text(FileMode::Executable)[1] != mode_text(FileMode::Symlink)[1]);
    }
    assert(mode_text(FileMode::Directory).len() != mode_text(FileMode::Symlink).len());
    assert(mode_text(FileMode::Directory).len() != mode_text(FileMode::Regular).len());
    assert(mode_text(FileMode::Directory).len() != mode_text(FileMode::Executable).len());
}

impl FileMode {
    /// The numeric text of this mode.
    pub fn text(&self) -> (r: Vec<u8>)
        ensures
            r@ == mode_text(*self),
    {
        let r = match self {
            FileMode::Regular => vec![49u8, 48, 48, 54, 52, 52],
            FileMode::Executable => vec![49u8, 48, 48, 55, 53, 53],
            FileMode::Symlink => vec![49u8, 50, 48, 48, 48, 48],
            FileMode::Directory => vec![52u8, 48, 48, 48, 48],
        };
        assert(r@ =~= mode_text(*self));
        r
    }

    /// The mode whose numeric text is `t`, if any.
    pub fn parse(t: &[u8]) -> (r: Option<FileMode>)
        ensures
            r == mode_of_text(t@),
    {
        let modes = [FileMode::Regular, FileMode::Executable, FileMode::Symlink, FileMode::Directory];
        let mut i: usize = 0;
        while i < 4
            invariant
                i <= 4,
                modes@ == seq![FileMode::Regular, FileMode::Executable, FileMode::Symlink, FileMode::Directory],
                forall|j: int| 0 <= j < i ==> t@ != mode_text(#[trigger] modes@[j]),
            decreases 4 - i,
        {
            let m = modes[i];
            let mt = m.text();
            if crate::codec::bytes_eq(mt.as_slice(), t) {
                return Some(m);
            }
            i = i + 1;
        }
        None
    }
}

} // verus!

verus! {

/// The mode of a regular file from its Unix permission bits: executable when
/// any execute bit is set.
pub open spec fn mode_of_permissions(bits: u32) -> FileMode {
    if bits & 0o111 != 0 {
        FileMode::Executable
    } else {
        FileMode::Regular
    }
}

/// The mode of a regular file from its Unix permission bits.
pub fn mode_from_permissions(bits: u32) -> (r: FileMode)
    ensures
        r == mode_of_permissions(bits),
{
    if bits & 0o111 != 0 {
        FileMode::Executable
    } else {
        FileMode::Regular
    }
}

} // verus!
