//! Names for result files that do not clash with files that are already there.
//!
//! The first name tried is the base followed by the extension; the names after it carry the
//! number of the attempt in round brackets between the two: `result.png`, `result(1).png`,
//! `result(2).png`, and so on.

use crate::text::{decimal, decimal_string, lemma_decimal_round_trip};
use vstd::prelude::*;
use vstd::set_lib::lemma_len_subset;
use vstd::string::StringExecFns;

verus! {

/// The extensions of the files that are taken for images.
pub const IMAGE_EXTENSIONS: [&'static str; 3] = ["png", "jpg", "jpeg"];

/// The pattern that finds the files with the extension `extension` in `dir` and below it.
pub open spec fn image_pattern_text(dir: Seq<char>, extension: Seq<char>) -> Seq<char> {
    dir + "/**/*."@ + extension
}

/// The pattern that finds the files with the extension `extension` in `dir` and below it.
pub fn image_pattern(dir: &str, extension: &str) -> (pattern: String)
    ensures
        pattern@ == image_pattern_text(dir@, extension@),
{
    String::from_str(dir).concat("/**/*.").concat(extension)
}

/// The name tried at `attempt`: the base and the extension, with the number of the attempt
/// in round brackets between them from the second attempt on.
pub open spec fn candidate_name(base: Seq<char>, extension: Seq<char>, attempt: nat) -> Seq<char> {
    if attempt == 0 {
        base + extension
    } else {
        base + seq!['('] + decimal(attempt) + seq![')'] + extension
    }
}

/// Different attempts try different names.
pub proof fn lemma_candidates_differ(base: Seq<char>, extension: Seq<char>, a: nat, b: nat)
    requires
        a != b,
    ensures
        candidate_name(base, extension, a) != candidate_name(base, extension, b),
{
    lemma_decimal_round_trip(a);
    lemma_decimal_round_trip(b);
    let na = candidate_name(base, extension, a);
    let nb = candidate_name(base, extension, b);
    if a != 0 && b != 0 && decimal(a).len() == decimal(b).len() {
        let from = base.len() + 1;
        let to = from + decimal(a).len();
        assert(na.subrange(from as int, to as int) =~= decimal(a));
        assert(nb.subrange(from as int, to as int) =~= decimal(b));
        if na == nb {
            assert(decimal(a) == decimal(b));
        }
    } else {
        assert(na.len() != nb.len());
    }
}

/// The texts of a sequence of strings.
pub open spec fn texts(names: Seq<String>) -> Seq<Seq<char>> {
    names.map_values(|name: String| name@)
}

/// `attempt` is the first attempt whose name is not among `taken`.
pub open spec fn is_first_free(
    taken: Seq<Seq<char>>,
    base: Seq<char>,
    extension: Seq<char>,
    attempt: nat,
) -> bool {
    &&& !taken.contains(candidate_name(base, extension, attempt))
    &&& forall|earlier: nat|
        earlier < attempt ==> taken.contains(#[trigger] candidate_name(base, extension, earlier))
}

/// Among the names of the first `taken.len() + 1` attempts one is not in `taken`.
proof fn lemma_some_attempt_is_free(taken: Seq<Seq<char>>, base: Seq<char>, extension: Seq<char>)
    ensures
        exists|attempt: nat|
            attempt <= taken.len() && !taken.contains(
                #[trigger] candidate_name(base, extension, attempt),
            ),
{
    if forall|attempt: nat|
        attempt <= taken.len() ==> taken.contains(
            #[trigger] candidate_name(base, extension, attempt),
        ) {
        let tried = Seq::new(taken.len() + 1, |i: int| candidate_name(base, extension, i as nat));
        assert forall|i: int, j: int|
            0 <= i < tried.len() && 0 <= j < tried.len() && i != j implies tried[i]
            != tried[j] by {
            lemma_candidates_differ(base, extension, i as nat, j as nat);
        }
        tried.unique_seq_to_set();
        taken.lemma_cardinality_of_set();
        broadcast use vstd::seq_lib::seq_to_set_is_finite;

        lemma_len_subset(tried.to_set(), taken.to_set());
    }
}

/// The name to try at `attempt`.
pub fn file_name_candidate(base: &str, extension: &str, attempt: usize) -> (name: String)
    ensures
        name@ == candidate_name(base@, extension@, attempt as nat),
{
    if attempt == 0 {
        String::from_str(base).concat(extension)
    } else {
        proof {
            reveal_strlit("(");
            reveal_strlit(")");
        }
        let number = decimal_string(attempt);
        let name = String::from_str(base).concat("(").concat(number.as_str()).concat(")").concat(
            extension,
        );
        name
    }
}

/// Whether `name` is one of `taken`.
fn is_taken(taken: &[String], name: &String) -> (found: bool)
    ensures
        found == texts(taken@).contains(name@),
{
    let mut k: usize = 0;
    while k < taken.len()
        invariant
            k <= taken.len(),
            forall|q: int| 0 <= q < k ==> texts(taken@)[q] != name@,
        decreases taken.len() - k,
    {
        if taken[k] == *name {
            assert(texts(taken@)[k as int] == name@);
            return true;
        }
        k = k + 1;
    }
    false
}

/// Finds a name for a new file beside the files named `taken`: the name of the first attempt
/// that is not among them.
pub fn find_free_filepath(taken: &[String], base: &str, extension: &str) -> (name: String)
    ensures
        exists|attempt: nat|
            is_first_free(texts(taken@), base@, extension@, attempt) && name@
                == #[trigger] candidate_name(base@, extension@, attempt),
{
    let mut i: usize = 0;
    loop
        invariant
            i <= taken.len(),
            forall|earlier: nat|
                earlier < i ==> texts(taken@).contains(
                    #[trigger] candidate_name(base@, extension@, earlier),
                ),
        decreases taken.len() - i,
    {
        let name = file_name_candidate(base, extension, i);
        if !is_taken(taken, &name) {
            return name;
        }
        proof {
            if i == taken.len() {
                lemma_some_attempt_is_free(texts(taken@), base@, extension@);
            }
        }
        i = i + 1;
    }
}

} // verus!
