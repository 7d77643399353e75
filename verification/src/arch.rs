//! Pure lookup logic for the host environment: mapping a host architecture
//! name to its repository architecture, and reading the distribution branch
//! out of os-release text.
//!
//! Reading the actual host values (the compiled-in architecture string, the
//! os-release file) is I/O and stays with the drivers; the decisions on
//! those values are made here.

use vstd::prelude::*;

use crate::control::{split_into_lines, split_lines, strs_view};

verus! {

/// The repository branch family of an installation.
#[derive(Debug, Clone, Copy, PartialEq, Eq, Structural)]
pub enum AOSCBranch {
    Mainline,
    Afterglow,
}

/// Compares two strings character by character.
pub fn str_eq(a: &str, b: &str) -> (r: bool)
    ensures
        r == (a@ == b@),
{
    let n = a.unicode_len();
    let m = b.unicode_len();
    if n != m {
        proof {
            assert(a@ != b@);
        }
        return false;
    }
    let mut i: usize = 0;
    while i < n
        invariant
            0 <= i <= n,
            n == a@.len(),
            n == b@.len(),
            forall|j: int| 0 <= j < i ==> a@[j] == #[trigger] b@[j],
        decreases n - i,
    {
        let ca = a.get_char(i);
        let cb = b.get_char(i);
        if ca != cb {
            proof {
                assert(a@[i as int] != b@[i as int]);
            }
            return false;
        }
        i += 1;
    }
    proof {
        assert(a@ =~= b@);
    }
    true
}

/// The repository architecture name for a host architecture string, the
/// fixed mapping table of the distribution.
pub open spec fn spec_arch_name(host: Seq<char>) -> Option<Seq<char>> {
    if host == "x86_64"@ {
        Some("amd64"@)
    } else if host == "x86"@ {
        Some("i486"@)
    } else if host == "powerpc"@ {
        Some("powerpc"@)
    } else if host == "aarch64"@ {
        Some("arm64"@)
    } else if host == "mips64"@ {
        Some("loongson3"@)
    } else if host == "riscv64"@ {
        Some("riscv64"@)
    } else {
        None
    }
}

/// Maps a host architecture string to its repository architecture name.
pub fn arch_name_of(host: &str) -> (r: Option<&'static str>)
    ensures
        r is Some <==> spec_arch_name(host@) is Some,
        r matches Some(a) ==> spec_arch_name(host@) == Some(a@),
{
    if str_eq(host, "x86_64") {
        Some("amd64")
    } else if str_eq(host, "x86") {
        Some("i486")
    } else if str_eq(host, "powerpc") {
        Some("powerpc")
    } else if str_eq(host, "aarch64") {
        Some("arm64")
    } else if str_eq(host, "mips64") {
        Some("loongson3")
    } else if str_eq(host, "riscv64") {
        Some("riscv64")
    } else {
        None
    }
}

pub open spec fn has_prefix(l: Seq<char>, p: Seq<char>) -> bool {
    l.len() >= p.len() && l.subrange(0, p.len() as int) == p
}

/// The branch a distribution name denotes.
pub open spec fn spec_branch_of_name(name: Seq<char>) -> Option<AOSCBranch> {
    if name == "AOSC OS"@ {
        Some(AOSCBranch::Mainline)
    } else if name == "AOSC OS/Retro"@ || name == "Afterglow"@ {
        Some(AOSCBranch::Afterglow)
    } else {
        None
    }
}

/// The text after `NAME=` on the first line that carries that prefix.
pub open spec fn first_name_line(lines: Seq<Seq<char>>) -> Option<Seq<char>>
    decreases lines.len(),
{
    if lines.len() == 0 {
        None
    } else if has_prefix(lines.first(), "NAME="@) {
        Some(lines.first().subrange("NAME="@.len() as int, lines.first().len() as int))
    } else {
        first_name_line(lines.drop_first())
    }
}

/// The branch that os-release text decides: the first `NAME=` line names the
/// distribution, and only the known names yield a branch.
pub open spec fn spec_aosc_branch(content: Seq<char>) -> Option<AOSCBranch> {
    match first_name_line(split_lines(content)) {
        Some(name) => spec_branch_of_name(name),
        None => None,
    }
}

fn line_has_name_prefix(l: &str) -> (r: bool)
    ensures
        r == has_prefix(l@, "NAME="@),
{
    let n = l.unicode_len();
    if n < 5 {
        proof {
            reveal_strlit("NAME=");
        }
        return false;
    }
    proof {
        reveal_strlit("NAME=");
    }
    let head = l.substring_char(0, 5);
    str_eq(head, "NAME=")
}

fn branch_of_name(name: &str) -> (r: Option<AOSCBranch>)
    ensures
        r == spec_branch_of_name(name@),
{
    if str_eq(name, "AOSC OS") {
        Some(AOSCBranch::Mainline)
    } else if str_eq(name, "AOSC OS/Retro") {
        Some(AOSCBranch::Afterglow)
    } else if str_eq(name, "Afterglow") {
        Some(AOSCBranch::Afterglow)
    } else {
        None
    }
}

/// Decides the branch from os-release text.
pub fn aosc_branch_of(content: &str) -> (r: Option<AOSCBranch>)
    ensures
        r == spec_aosc_branch(content@),
{
    let lines = split_into_lines(content);
    let ghost lv = strs_view(lines@);
    let n = lines.len();
    let mut i: usize = 0;
    proof {
        assert(lv.subrange(0, lv.len() as int) =~= lv);
    }
    while i < n
        invariant
            0 <= i <= n,
            n == lines.len(),
            lv == strs_view(lines@),
            lv == split_lines(content@),
            n == lv.len(),
            first_name_line(lv) == first_name_line(lv.subrange(i as int, n as int)),
        decreases n - i,
    {
        let ghost tail = lv.subrange(i as int, n as int);
        proof {
            assert(tail.first() == lv[i as int]);
            assert(lv[i as int] == lines@[i as int]@);
        }
        let l: &String = &lines[i];
        if line_has_name_prefix(l.as_str()) {
            let len = l.as_str().unicode_len();
            proof {
                reveal_strlit("NAME=");
            }
            let rest = l.as_str().substring_char(5, len);
            return branch_of_name(rest);
        }
        proof {
            assert(tail.drop_first() =~= lv.subrange(i + 1, n as int));
        }
        i += 1;
    }
    proof {
        assert(lv.subrange(n as int, n as int).len() == 0);
    }
    None
}

} // verus!
