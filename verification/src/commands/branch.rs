//! `branch`: the current branch, the listing of branches, and the checks
//! before creating one.
use vstd::prelude::*;

use crate::commands::util::strings_view;
use crate::text::{starts_with, substring, trim, trim_text};

verus! {

/// The branch that HEAD's text names: after trimming, the text after
/// `ref: refs/heads/`, or nothing when HEAD does not start that way.
pub open spec fn branch_of_head(head: Seq<char>) -> Seq<char> {
    let t = trim(head);
    if t.len() >= 16 && t.subrange(0, 16) == "ref: refs/heads/"@ {
        t.subrange(16, t.len() as int)
    } else {
        Seq::empty()
    }
}

/// The current branch, read from HEAD's text.
pub fn current_branch(head_content: &str) -> (r: String)
    ensures
        r@ == branch_of_head(head_content@),
{
    let t = trim_text(head_content);
    let prefix = "ref: refs/heads/";
    proof {
        reveal_strlit("ref: refs/heads/");
    }
    if starts_with(t.as_str(), prefix) {
        let n = t.as_str().unicode_len();
        substring(t.as_str(), 16, n)
    } else {
        String::new()
    }
}

/// The line for one branch: `* ` before the current one, two spaces before
/// the others.
pub open spec fn branch_line(b: Seq<char>, current: Seq<char>) -> Seq<char> {
    if b == current {
        "* "@ + b
    } else {
        "  "@ + b
    }
}

/// The lines of the listing: a heading, then a line per branch in order.
pub open spec fn branch_lines(branches: Seq<Seq<char>>, current: Seq<char>) -> Seq<Seq<char>> {
    seq!["Branches:"@] + branches.map_values(|b: Seq<char>| branch_line(b, current))
}

/// The lines that listing the branches prints.
pub fn branch_listing(branches: &Vec<String>, current: &String) -> (r: Vec<String>)
    ensures
        strings_view(r@) == branch_lines(strings_view(branches@), current@),
{
    let ghost bs = strings_view(branches@);
    let mut out: Vec<String> = Vec::new();
    out.push(String::from_str("Branches:"));
    let mut i: usize = 0;
    while i < branches.len()
        invariant
            i <= branches@.len(),
            bs == strings_view(branches@),
            strings_view(out@) == seq!["Branches:"@] + bs.take(i as int).map_values(
                |b: Seq<char>| branch_line(b, current@),
            ),
        decreases branches@.len() - i,
    {
        let mut line = if branches[i] == *current {
            String::from_str("* ")
        } else {
            String::from_str("  ")
        };
        line.append(branches[i].as_str());
        let ghost before = strings_view(out@);
        out.push(line);
        proof {
            assert(line@ == branch_line(bs[i as int], current@));
            assert(strings_view(out@) =~= before.push(line@));
            assert(seq!["Branches:"@] + bs.take(i + 1).map_values(
                |b: Seq<char>| branch_line(b, current@),
            ) =~= before.push(line@));
        }
        i = i + 1;
    }
    proof {
        assert(bs.take(i as int) =~= bs);
    }
    out
}

/// Checks that a request names at most one branch to create.
pub fn check_branch_count(names: &[String]) -> (r: Result<(), String>)
    ensures
        r is Ok <==> names@.len() <= 1,
        r matches Err(e) ==> e@ == "Only one branch can be created at a time."@,
{
    if names.len() > 1 {
        return Err(String::from_str("Only one branch can be created at a time."));
    }
    Ok(())
}

/// Checks a request to create branches: at most one name, and not one that
/// exists already.
pub fn check_new_branch(names: &[String], existing: &Vec<String>) -> (r: Result<(), String>)
    ensures
        names@.len() > 1 ==> (r matches Err(e) && e@ == "Only one branch can be created at a time."@),
        names@.len() <= 1 ==> (r is Ok <==> forall|i: int|
            0 <= i < names@.len() ==> !strings_view(existing@).contains(#[trigger] names@[i]@)),
        names@.len() == 1 ==> (r matches Err(e) ==> e@ == "Branch '"@ + names@[0]@
            + "' already exists."@),
{
    if let Err(e) = check_branch_count(names) {
        return Err(e);
    }
    if names.len() == 1 {
        let name = &names[0];
        let mut i: usize = 0;
        while i < existing.len()
            invariant
                i <= existing@.len(),
                names@.len() == 1,
                name@ == names@[0]@,
                forall|j: int| 0 <= j < i ==> existing@[j]@ != name@,
            decreases existing@.len() - i,
        {
            if existing[i] == *name {
                proof {
                    assert(strings_view(existing@)[i as int] == name@);
                }
                let mut msg = String::from_str("Branch '");
                msg.append(name.as_str());
                msg.append("' already exists.");
                return Err(msg);
            }
            i = i + 1;
        }
        proof {
            if strings_view(existing@).contains(name@) {
                let k = choose|k: int|
                    0 <= k < strings_view(existing@).len() && strings_view(existing@)[k] == name@;
                assert(existing@[k]@ == name@);
            }
        }
    }
    Ok(())
}

} // verus!
