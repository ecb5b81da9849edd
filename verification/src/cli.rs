//! The command line: kindlegen's arguments, output names and status lines.

use vstd::prelude::*;

use crate::input::{contains_text, occurs_in};
use crate::pattern::texts;
use crate::text::{chars_of, lowercased, opt_string, opt_text, same_text, to_lower};
use crate::xml::{ends_with, suffix_is_end, text_ends_with};

verus! {

/// Whether an argument in lower case names an input file.
pub open spec fn names_input(lower: Seq<char>) -> bool {
    ends_with(lower, ".opf"@) || ends_with(lower, ".epub"@)
}

/// Whether an argument in lower case names an input file.
pub fn is_input_name(lower: &str) -> (r: bool)
    ensures
        r == names_input(lower@),
{
    text_ends_with(lower, ".opf") || text_ends_with(lower, ".epub")
}

/// Whether the program was called like kindlegen: its first argument is an input file and no
/// subcommand. `args` starts with the name of the program.
pub fn is_kindlegen_compat_mode(args: &[String]) -> (r: bool)
    ensures
        r == (args@.len() >= 2 && names_input(lowercased(args@[1]@))),
{
    if args.len() < 2 {
        return false;
    }
    let lower = to_lower(args[1].as_str());
    is_input_name(lower.as_str())
}

/// The output name that the arguments from `at` on give, where `found` was given before: the
/// argument behind the last `-o`. The argument behind `-locale` is skipped, and so is every other
/// one.
pub open spec fn output_name(args: Seq<Seq<char>>, at: int, found: Option<Seq<char>>) -> Option<
    Seq<char>,
>
    decreases if at < args.len() {
        args.len() - at
    } else {
        0
    },
{
    if at < 0 || at >= args.len() {
        found
    } else if args[at] == "-o"@ {
        if at + 1 < args.len() {
            output_name(args, at + 2, Some(args[at + 1]))
        } else {
            found
        }
    } else if args[at] == "-locale"@ {
        output_name(args, at + 2, found)
    } else {
        output_name(args, at + 1, found)
    }
}

/// The input file and the output name of a call like kindlegen's. `args` starts with the name of
/// the program.
pub fn parse_kindlegen_args(args: &[String]) -> (r: (String, Option<String>))
    requires
        args@.len() >= 2,
    ensures
        r.0@ == args@[1]@,
        opt_string(r.1) == output_name(texts(args@), 2, None),
{
    let size: usize = args.len();
    let ghost all = texts(args@);
    let mut found: Option<String> = None;
    let mut i: usize = 2;
    while i < size
        invariant
            size == args@.len(),
            all == texts(args@),
            2 <= i,
            output_name(all, 2, None) == output_name(all, i as int, opt_string(found)),
        decreases if i < size {
            size - i
        } else {
            0
        },
    {
        proof {
            reveal_with_fuel(output_name, 2);
        }
        let arg = args[i].as_str();
        if same_text(arg, "-o") {
            if size - i > 1 {
                found = Some(args[i + 1].clone());
                i += 1;
            }
            i += 1;
        } else if same_text(arg, "-locale") {
            i += 1;
            if i < size {
                i += 1;
            }
        } else {
            i += 1;
        }
    }
    (args[1].clone(), found)
}

/// Whether an extension is that of an EPUB, whatever the case of its letters.
pub open spec fn is_epub(ext: Seq<char>) -> bool {
    &&& ext.len() == 4
    &&& ext[0] == 'e' || ext[0] == 'E'
    &&& ext[1] == 'p' || ext[1] == 'P'
    &&& ext[2] == 'u' || ext[2] == 'U'
    &&& ext[3] == 'b' || ext[3] == 'B'
}

/// Whether an input file is an EPUB, by its extension.
pub fn is_epub_input(extension: Option<&str>) -> (r: bool)
    ensures
        r == (extension is Some && is_epub(extension->0@)),
{
    match extension {
        Some(ext) => {
            let c = chars_of(ext);
            c.len() == 4 && (c[0] == 'e' || c[0] == 'E') && (c[1] == 'p' || c[1] == 'P') && (c[2]
                == 'u' || c[2] == 'U') && (c[3] == 'b' || c[3] == 'B')
        },
        None => false,
    }
}

/// The extension of the output file.
pub fn output_extension(kf8_only: bool) -> (r: &'static str)
    ensures
        r@ == if kf8_only {
            "azw3"@
        } else {
            "mobi"@
        },
{
    if kf8_only {
        "azw3"
    } else {
        "mobi"
    }
}

/// What is printed at the end of a build, which failed with `error` or succeeded.
pub open spec fn status(error: Option<Seq<char>>) -> Seq<char> {
    match error {
        None => "Info(prcgen):I1036: Mobi file built successfully"@,
        Some(e) => if contains_text(e, "too big"@) || contains_text(e, "too large"@) {
            "Error(prcgen):E23026: File too big"@
        } else {
            "Error(prcgen):E23026: Could not build Mobi file"@
        },
    }
}

/// The line tells success by the code `I1036` and failure by the code `E23026`.
pub proof fn status_holds_code(error: Option<Seq<char>>)
    ensures
        error is None ==> contains_text(status(error), ":I1036:"@),
        error is Some ==> contains_text(status(error), ":E23026:"@),
{
    reveal_strlit("Info(prcgen):I1036: Mobi file built successfully");
    reveal_strlit("Error(prcgen):E23026: File too big");
    reveal_strlit("Error(prcgen):E23026: Could not build Mobi file");
    reveal_strlit(":I1036:");
    reveal_strlit(":E23026:");
    let line = status(error);
    if error is None {
        assert(line.skip(12).take(7) =~= ":I1036:"@);
    } else {
        assert(line.skip(13).take(8) =~= ":E23026:"@);
    }
}

/// What is printed at the end of a build, which failed with `error` or succeeded. The codes are those
/// of kindlegen.
pub fn status_line(error: Option<&str>) -> (r: &'static str)
    ensures
        r@ == status(opt_text(error)),
        error is None ==> contains_text(r@, ":I1036:"@),
        error is Some ==> contains_text(r@, ":E23026:"@),
{
    proof {
        status_holds_code(opt_text(error));
    }
    match error {
        None => "Info(prcgen):I1036: Mobi file built successfully",
        Some(e) => if occurs_in(e, "too big") || occurs_in(e, "too large") {
            "Error(prcgen):E23026: File too big"
        } else {
            "Error(prcgen):E23026: Could not build Mobi file"
        },
    }
}

proof fn output_name_goes_on(args: Seq<Seq<char>>, rest: Seq<Seq<char>>, at: int, found: Option<Seq<char>>)
    requires
        0 <= at <= args.len(),
        at < args.len() ==> args.last() != "-o"@ && args.last() != "-locale"@,
    ensures
        output_name(args + rest, at, found) == output_name(
            args + rest,
            args.len() as int,
            output_name(args, at, found),
        ),
    decreases args.len() - at,
{
    if at < args.len() {
        let all = args + rest;
        assert(all[at] == args[at]);
        if args[at] == "-o"@ {
            assert(at + 1 < args.len());
            assert(all[at + 1] == args[at + 1]);
            output_name_goes_on(args, rest, at + 2, Some(args[at + 1]));
        } else if args[at] == "-locale"@ {
            assert(at + 1 < args.len());
            output_name_goes_on(args, rest, at + 2, found);
        } else {
            output_name_goes_on(args, rest, at + 1, found);
        }
    }
}

proof fn other_arguments_say_nothing(args: Seq<Seq<char>>, at: int, found: Option<Seq<char>>)
    requires
        0 <= at,
        forall|i: int| at <= i < args.len() ==> #[trigger] args[i] != "-o"@,
    ensures
        output_name(args, at, found) == found,
    decreases
            if at < args.len() {
                args.len() - at
            } else {
                0
            },
{
    if at < args.len() {
        other_arguments_say_nothing(args, at + 1, found);
        other_arguments_say_nothing(args, at + 2, found);
    }
}

/// The output name stands behind the last `-o`: whatever came before, that argument counts, and so it
/// stays when others follow. An argument behind `-locale` is none, whatever it says, and a `-o` at the
/// end says nothing.
pub proof fn last_output_name_counts(
    args: Seq<Seq<char>>,
    name: Seq<char>,
    rest: Seq<Seq<char>>,
    locale: Seq<char>,
)
    requires
        args.len() >= 2,
        args.len() > 2 ==> args.last() != "-o"@ && args.last() != "-locale"@,
        !rest.contains("-o"@),
    ensures
        output_name(args + seq!["-o"@, name] + rest, 2, None) == Some(name),
        output_name(args + rest, 2, None) == output_name(args, 2, None),
        output_name(args + seq!["-locale"@, locale] + rest, 2, None) == output_name(args, 2, None),
        output_name(args + seq!["-o"@], 2, None) == output_name(args, 2, None),
{
    reveal_strlit("-o");
    reveal_strlit("-locale");
    assert("-o"@.len() != "-locale"@.len());
    let n = args.len() as int;
    let f = output_name(args, 2, None);
    let a = seq!["-o"@, name] + rest;
    assert(args + seq!["-o"@, name] + rest =~= args + a);
    output_name_goes_on(args, a, 2, None);
    assert((args + a)[n] == "-o"@ && (args + a)[n + 1] == name);
    assert forall|i: int| n + 2 <= i < (args + a).len() implies #[trigger] (args + a)[i] != "-o"@ by {
        assert(rest.contains(rest[i - n - 2]));
    }
    other_arguments_say_nothing(args + a, n + 2, Some(name));
    output_name_goes_on(args, rest, 2, None);
    assert forall|i: int| n <= i < (args + rest).len() implies #[trigger] (args + rest)[i] != "-o"@ by {
        assert(rest.contains(rest[i - n]));
    }
    other_arguments_say_nothing(args + rest, n, f);
    let b = seq!["-locale"@, locale] + rest;
    assert(args + seq!["-locale"@, locale] + rest =~= args + b);
    output_name_goes_on(args, b, 2, None);
    assert((args + b)[n] == "-locale"@);
    assert forall|i: int| n + 2 <= i < (args + b).len() implies #[trigger] (args + b)[i] != "-o"@ by {
        assert(rest.contains(rest[i - n - 2]));
    }
    other_arguments_say_nothing(args + b, n + 2, f);
    output_name_goes_on(args, seq!["-o"@], 2, None);
    assert((args + seq!["-o"@])[n] == "-o"@);
}

/// An argument names an input file where it ends with `.opf` or `.epub`, with something before that or
/// not.
pub proof fn inputs_are_told_by_their_end(stem: Seq<char>, other: Seq<char>)
    ensures
        names_input(stem + ".opf"@),
        names_input(stem + ".epub"@),
        names_input(other) ==> exists|s: Seq<char>|
            other == #[trigger] (s + ".opf"@) || other == s + ".epub"@,
{
    suffix_is_end(stem + ".opf"@, ".opf"@);
    suffix_is_end(stem + ".epub"@, ".epub"@);
    suffix_is_end(other, ".opf"@);
    suffix_is_end(other, ".epub"@);
    if ends_with(other, ".epub"@) {
        let s = choose|s: Seq<char>| other == #[trigger] (s + ".epub"@);
        let t = s + ".opf"@;
    }
}

} // verus!
