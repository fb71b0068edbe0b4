//! Sorting the flags that `pkg-config` gives for DPDK, for the build scripts of programs that
//! link it.

use crate::text;
use crate::text::{ends_with, starts_with, words};
use vstd::prelude::*;
use vstd::string::{StrSliceExecFns, StringExecFns};

verus! {

/// What becomes of one flag.
pub enum Sorted {
    /// The compiler and the binding generator take it.
    Compiler,
    /// The linker takes it, as this line tells it.
    Linker(Seq<char>),
    /// Nothing takes it.
    Dropped,
}

/// Where a flag goes; the first that applies counts.
pub open spec fn sorted(flag: Seq<char>) -> Sorted {
    if text::has_prefix(flag, "-I"@) || text::has_prefix(flag, "-m"@) || flag == "-include"@
        || text::has_suffix(flag, ".h"@) {
        Sorted::Compiler
    } else if text::has_prefix(flag, "-l"@) {
        Sorted::Linker("cargo:rustc-link-lib="@ + flag.skip(2))
    } else if text::has_prefix(flag, "-L"@) {
        Sorted::Linker("cargo:rustc-link-search=native="@ + flag.skip(2))
    } else {
        Sorted::Dropped
    }
}

/// The flags for the compiler, in their order.
pub open spec fn compiler_spec(flags: Seq<Seq<char>>) -> Seq<Seq<char>> {
    flags.filter(|flag: Seq<char>| sorted(flag) is Compiler)
}

/// The lines for the linker, in the order of their flags.
pub open spec fn linker_spec(flags: Seq<Seq<char>>) -> Seq<Seq<char>>
    decreases flags.len(),
{
    if flags.len() == 0 {
        Seq::empty()
    } else {
        let front = linker_spec(flags.drop_last());
        match sorted(flags.last()) {
            Sorted::Linker(line) => front.push(line),
            _ => front,
        }
    }
}

/// Sorts flags into those for the compiler and lines for the linker.
pub fn sort_flags(flags: &[String]) -> (sorted: (Vec<String>, Vec<String>))
    ensures
        text::strings(sorted.0@) == compiler_spec(text::strings(flags@)),
        text::strings(sorted.1@) == linker_spec(text::strings(flags@)),
{
    proof {
        reveal_strlit("-l");
        reveal_strlit("-L");
    }
    let header_option = "-include".to_owned();
    let ghost all = text::strings(flags@);
    let ghost test = |flag: Seq<char>| sorted(flag) is Compiler;
    let mut compiler: Vec<String> = Vec::new();
    let mut linker: Vec<String> = Vec::new();
    let mut i: usize = 0;
    proof {
        assert(all.take(0).filter(test) =~= Seq::empty()) by {
            reveal(Seq::filter);
        }
        assert(text::strings(compiler@) =~= Seq::empty());
        assert(text::strings(linker@) =~= linker_spec(all.take(0)));
    }
    while i < flags.len()
        invariant
            i <= flags@.len(),
            all == text::strings(flags@),
            test == (|flag: Seq<char>| sorted(flag) is Compiler),
            header_option@ == "-include"@,
            "-l"@.len() == 2,
            "-L"@.len() == 2,
            text::strings(compiler@) == all.take(i as int).filter(test),
            text::strings(linker@) == linker_spec(all.take(i as int)),
        decreases flags@.len() - i,
    {
        let flag: &str = flags[i].as_str();
        let ghost front = all.take(i + 1);
        let ghost before = compiler@;
        let ghost lines = linker@;
        proof {
            assert(front.drop_last() =~= all.take(i as int));
            assert(front.last() == flag@);
            reveal(Seq::filter);
        }
        if starts_with(flag, "-I") || starts_with(flag, "-m") || flags[i] == header_option || ends_with(
            flag,
            ".h",
        ) {
            compiler.push(flags[i].clone());
            assert(text::strings(compiler@) =~= text::strings(before).push(flag@));
        } else if starts_with(flag, "-l") {
            let rest = flag.substring_char(2, flag.unicode_len());
            assert(rest@ =~= flag@.skip(2));
            let line = "cargo:rustc-link-lib=".to_owned().concat(rest);
            linker.push(line);
            assert(text::strings(linker@) =~= text::strings(lines).push(line@));
        } else if starts_with(flag, "-L") {
            let rest = flag.substring_char(2, flag.unicode_len());
            assert(rest@ =~= flag@.skip(2));
            let line = "cargo:rustc-link-search=native=".to_owned().concat(rest);
            linker.push(line);
            assert(text::strings(linker@) =~= text::strings(lines).push(line@));
        }
        i += 1;
    }
    assert(all.take(i as int) =~= all);
    (compiler, linker)
}

/// Sorts the flags that `pkg-config` prints.
pub fn sort_output(output: &str) -> (sorted: (Vec<String>, Vec<String>))
    ensures
        text::strings(sorted.0@) == compiler_spec(text::words_spec(output@)),
        text::strings(sorted.1@) == linker_spec(text::words_spec(output@)),
{
    let flags = words(output);
    sort_flags(&flags)
}

/// Where a flag goes by what it starts or ends with: search paths for headers, machine options and
/// headers go to the compiler, and libraries and search paths for them go to the linker.
pub proof fn flags_by_their_ends(rest: Seq<char>)
    ensures
        sorted("-I"@ + rest) is Compiler,
        sorted("-m"@ + rest) is Compiler,
        sorted("-include"@) is Compiler,
        sorted(rest + ".h"@) is Compiler,
        !text::has_suffix("-l"@ + rest, ".h"@) ==> sorted("-l"@ + rest) == Sorted::Linker(
            "cargo:rustc-link-lib="@ + rest,
        ),
        !text::has_suffix("-L"@ + rest, ".h"@) ==> sorted("-L"@ + rest) == Sorted::Linker(
            "cargo:rustc-link-search=native="@ + rest,
        ),
{
    reveal_strlit("-I");
    reveal_strlit("-m");
    reveal_strlit("-l");
    reveal_strlit("-L");
    reveal_strlit("-include");
    let library = "-l"@ + rest;
    let path = "-L"@ + rest;
    text::affixes(rest, "-I"@, rest);
    text::affixes(rest, "-m"@, rest);
    text::affixes(rest, ".h"@, rest);
    text::affixes(rest, "-l"@, rest);
    text::affixes(rest, "-L"@, rest);
    assert(library[1] == 'l' && path[1] == 'L');
    assert(library.take(2)[1] == 'l' && path.take(2)[1] == 'L');
    assert("-I"@[1] == 'I' && "-m"@[1] == 'm' && "-l"@[1] == 'l' && "-L"@[1] == 'L');
    assert("-include"@[1] == 'i');
    assert(library.skip(2) =~= rest);
    assert(path.skip(2) =~= rest);
}

/// A flag that starts with none of the known letters, asks for no header and is none goes nowhere.
pub proof fn other_flags_are_dropped(flag: Seq<char>)
    requires
        flag.len() < 2 || flag[0] != '-' || (flag[1] != 'I' && flag[1] != 'm' && flag[1] != 'l'
            && flag[1] != 'L'),
        flag != "-include"@,
        flag.len() < 2 || flag[flag.len() - 2] != '.' || flag[flag.len() - 1] != 'h',
    ensures
        sorted(flag) is Dropped,
{
    reveal_strlit("-I");
    reveal_strlit("-m");
    reveal_strlit("-l");
    reveal_strlit("-L");
    reveal_strlit(".h");
    if flag.len() >= 2 {
        assert(flag.take(2)[0] == flag[0] && flag.take(2)[1] == flag[1]);
        let end = flag.skip(flag.len() - 2);
        assert(end[0] == flag[flag.len() - 2] && end[1] == flag[flag.len() - 1]);
        assert("-I"@[0] == '-' && "-m"@[0] == '-' && "-l"@[0] == '-' && "-L"@[0] == '-');
        assert("-I"@[1] == 'I' && "-m"@[1] == 'm' && "-l"@[1] == 'l' && "-L"@[1] == 'L');
        assert(".h"@[0] == '.' && ".h"@[1] == 'h');
    }
}

/// Each flag goes its own way, behind what went there before it.
pub proof fn flags_go_one_by_one(flags: Seq<Seq<char>>, flag: Seq<char>)
    ensures
        compiler_spec(Seq::empty()) == Seq::<Seq<char>>::empty(),
        linker_spec(Seq::empty()) == Seq::<Seq<char>>::empty(),
        compiler_spec(flags.push(flag)) == match sorted(flag) {
            Sorted::Compiler => compiler_spec(flags).push(flag),
            _ => compiler_spec(flags),
        },
        linker_spec(flags.push(flag)) == match sorted(flag) {
            Sorted::Linker(line) => linker_spec(flags).push(line),
            _ => linker_spec(flags),
        },
{
    reveal(Seq::filter);
    assert(flags.push(flag).drop_last() =~= flags);
    assert(flags.push(flag).last() == flag);
}

} // verus!
