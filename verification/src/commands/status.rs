//! `status`: what is staged.
use vstd::prelude::*;

use crate::commands::util::strings_view;
use crate::index::Index;

verus! {

/// The lines `status` prints: `nothing staged` for an empty index, else one
/// line per entry, its status and its path.
pub open spec fn status_text(es: Seq<(Seq<char>, Seq<char>, Seq<char>)>) -> Seq<Seq<char>> {
    if es.len() == 0 {
        seq!["nothing staged"@]
    } else {
        es.map_values(|e: (Seq<char>, Seq<char>, Seq<char>)| e.2 + " "@ + e.0)
    }
}

/// `status` prints one line per staged entry, in order: line `i` is the
/// status of entry `i`, a space, and the path of entry `i`; with nothing
/// staged it prints the one line `nothing staged`.
pub proof fn law_status_lines(es: Seq<(Seq<char>, Seq<char>, Seq<char>)>)
    ensures
        es.len() == 0 ==> status_text(es) == seq!["nothing staged"@],
        es.len() > 0 ==> status_text(es).len() == es.len(),
        es.len() > 0 ==> forall|i: int|
            0 <= i < es.len() ==> #[trigger] status_text(es)[i] == es[i].2 + " "@ + es[i].0,
{
}

/// The lines that `status` prints.
pub fn execute(index: &Index) -> (r: Vec<String>)
    ensures
        strings_view(r@) == status_text(crate::index::entries_view(index.entries@)),
        index.entries@.len() == 0 ==> r@.len() == 1 && r@[0]@ == "nothing staged"@,
        index.entries@.len() > 0 ==> r@.len() == index.entries@.len(),
        index.entries@.len() > 0 ==> forall|i: int|
            0 <= i < r@.len() ==> (#[trigger] r@[i])@ == index.entries@[i].status@ + " "@
                + index.entries@[i].path@,
{
    proof {
        law_status_lines(crate::index::entries_view(index.entries@));
    }
    let mut out: Vec<String> = Vec::new();
    if index.is_empty() {
        out.push(String::from_str("nothing staged"));
        proof {
            assert(strings_view(out@) =~= seq!["nothing staged"@]);
        }
        return out;
    }
    let ghost es = crate::index::entries_view(index.entries@);
    let mut i: usize = 0;
    while i < index.entries.len()
        invariant
            i <= index.entries@.len(),
            es == crate::index::entries_view(index.entries@),
            strings_view(out@) == status_text(es).take(i as int),
            es.len() > 0,
        decreases index.entries@.len() - i,
    {
        let mut line = index.entries[i].status.clone();
        line.append(" ");
        line.append(index.entries[i].path.as_str());
        let ghost before = strings_view(out@);
        out.push(line);
        proof {
            assert(strings_view(out@) =~= before.push(line@));
            assert(status_text(es).take(i + 1) =~= status_text(es).take(i as int).push(
                status_text(es)[i as int],
            ));
        }
        i = i + 1;
    }
    proof {
        assert(status_text(es).take(i as int) =~= status_text(es));
        assert forall|k: int| 0 <= k < out@.len() implies (#[trigger] out@[k])@
            == index.entries@[k].status@ + " "@ + index.entries@[k].path@ by {
            assert(strings_view(out@)[k] == out@[k]@);
            assert(es[k] == crate::index::entry_view(index.entries@[k]));
        }
    }
    out
}

} // verus!
