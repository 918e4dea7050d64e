//! Which names are ignored, and how file paths are written in the index.
use vstd::prelude::*;

use crate::text::{
    find_char, lemma_split_step, lines, next_line, split_on, starts_with, substring, trim,
    trim_text,
};

verus! {

/// Whether a file or directory name is one of the ignore patterns.
pub fn is_ignored(name: &str, patterns: &[String]) -> (r: bool)
    ensures
        r == exists|i: int| 0 <= i < patterns@.len() && (#[trigger] patterns@[i])@ == name@,
{
    let key = String::from_str(name);
    let mut i: usize = 0;
    while i < patterns.len()
        invariant
            i <= patterns@.len(),
            key@ == name@,
            forall|j: int| 0 <= j < i ==> (#[trigger] patterns@[j])@ != name@,
        decreases patterns@.len() - i,
    {
        if patterns[i] == key {
            return true;
        }
        i = i + 1;
    }
    false
}

/// A path component that stays in a normalized path: not empty, not `.`
/// and not `..`.
pub open spec fn kept_component(seg: Seq<char>) -> bool {
    seg.len() > 0 && seg != "."@ && seg != ".."@
}

/// The components that stay, in order.
pub open spec fn kept_components(segs: Seq<Seq<char>>) -> Seq<Seq<char>>
    decreases segs.len(),
{
    if segs.len() == 0 {
        Seq::empty()
    } else {
        (if kept_component(segs[0]) {
            seq![segs[0]]
        } else {
            Seq::empty()
        }) + kept_components(segs.drop_first())
    }
}

/// Pieces joined with `/` between them.
pub open spec fn join_slash(segs: Seq<Seq<char>>) -> Seq<char>
    decreases segs.len(),
{
    if segs.len() == 0 {
        Seq::empty()
    } else if segs.len() == 1 {
        segs[0]
    } else {
        join_slash(segs.drop_last()) + "/"@ + segs.last()
    }
}

/// A path as the index writes it: its normal components joined with `/`,
/// so that `./`, empty components, `.` and `..` are gone.
pub open spec fn normalized(path: Seq<char>) -> Seq<char> {
    join_slash(kept_components(split_on(path, '/')))
}

proof fn lemma_kept_cons(x: Seq<char>, rest: Seq<Seq<char>>)
    ensures
        kept_components(seq![x] + rest) == (if kept_component(x) {
            seq![x]
        } else {
            Seq::empty()
        }) + kept_components(rest),
{
    assert((seq![x] + rest).drop_first() =~= rest);
    assert((seq![x] + rest)[0] == x);
}

/// A path written with its normal components joined by `/`.
pub fn normalize_path(path: &str) -> (r: String)
    ensures
        r@ == normalized(path@),
{
    let n = path.unicode_len();
    let dot = String::from_str(".");
    let dotdot = String::from_str("..");
    proof {
        reveal_strlit(".");
        reveal_strlit("..");
    }
    let mut out = String::new();
    let mut any = false;
    let mut pos: usize = 0;
    let ghost mut acc: Seq<Seq<char>> = Seq::empty();
    proof {
        assert(path@.subrange(0, n as int) =~= path@);
        assert(acc + kept_components(split_on(path@, '/')) =~= kept_components(
            split_on(path@, '/'),
        ));
    }
    loop
        invariant_except_break
            kept_components(split_on(path@, '/')) == acc + kept_components(
                split_on(path@.subrange(pos as int, n as int), '/'),
            ),
        invariant
            pos <= n,
            n == path@.len(),
            dot@ == "."@,
            dotdot@ == ".."@,
            out@ == join_slash(acc),
            any == (acc.len() > 0),
        ensures
            out@ == normalized(path@),
        decreases n - pos,
    {
        let ghost rest = path@.subrange(pos as int, n as int);
        proof {
            lemma_split_step(rest, '/');
        }
        let found = find_char(path, '/', pos);
        let end = match found {
            Some(e) => e,
            None => n,
        };
        let piece = substring(path, pos, end);
        let ghost before = acc;
        proof {
            match found {
                Some(e) => {
                    assert(rest.subrange(0, e - pos) =~= piece@);
                    assert(rest.subrange(e - pos + 1, rest.len() as int) =~= path@.subrange(
                        e + 1,
                        n as int,
                    ));
                },
                None => {
                    assert(rest =~= piece@);
                },
            }
        }
        let keep = piece.as_str().unicode_len() > 0 && piece != dot && piece != dotdot;
        if keep {
            if any {
                out.append("/");
            }
            out.append(piece.as_str());
            any = true;
            proof {
                acc = acc.push(piece@);
                assert(acc.drop_last() =~= before);
                if before.len() == 0 {
                    assert(out@ =~= join_slash(acc));
                }
            }
        }
        proof {
            let tail = match found {
                Some(e) => split_on(path@.subrange(e + 1, n as int), '/'),
                None => Seq::empty(),
            };
            assert(split_on(rest, '/') == seq![piece@] + tail);
            lemma_kept_cons(piece@, tail);
            assert(kept_components(split_on(path@, '/')) =~= acc + kept_components(tail));
            if found is None {
                assert(kept_components(tail) =~= Seq::<Seq<char>>::empty());
                assert(acc + kept_components(tail) =~= acc);
                assert(out@ == normalized(path@));
            }
        }
        match found {
            Some(e) => {
                pos = e + 1;
            },
            None => {
                break ;
            },
        }
    }
    out
}


/// How many times `c` repeats at the start of a text.
pub open spec fn lead_count(s: Seq<char>, c: char) -> nat
    decreases s.len(),
{
    if s.len() > 0 && s[0] == c {
        1 + lead_count(s.drop_first(), c)
    } else {
        0
    }
}

proof fn lemma_lead_count(s: Seq<char>, c: char, i: int)
    requires
        0 <= i <= s.len(),
        forall|j: int| 0 <= j < i ==> #[trigger] s[j] == c,
        i == s.len() || s[i] != c,
    ensures
        lead_count(s, c) == i,
    decreases s.len(),
{
    if i > 0 {
        assert forall|j: int| 0 <= j < i - 1 implies #[trigger] s.drop_first()[j] == c by {
            assert(s.drop_first()[j] == s[j + 1]);
        }
        if i - 1 < s.drop_first().len() {
            assert(s.drop_first()[i - 1] == s[i]);
        }
        lemma_lead_count(s.drop_first(), c, i - 1);
    }
}

/// The pattern a line of `.gitignore` gives: the trimmed line without its
/// leading slashes, unless it is empty or a `#` comment.
pub open spec fn pattern_of_line(l: Seq<char>) -> Option<Seq<char>> {
    let t = trim(l);
    if t.len() > 0 && t[0] != '#' {
        Some(t.subrange(lead_count(t, '/') as int, t.len() as int))
    } else {
        None
    }
}

/// The patterns the lines give, in order.
pub open spec fn patterns_of_lines(ls: Seq<Seq<char>>) -> Seq<Seq<char>>
    decreases ls.len(),
{
    if ls.len() == 0 {
        Seq::empty()
    } else {
        (match pattern_of_line(ls[0]) {
            Some(p) => seq![p],
            None => Seq::empty(),
        }) + patterns_of_lines(ls.drop_first())
    }
}

/// The ignore patterns: `.git` and `.minigit`, then those of `.gitignore`
/// when it could be read.
pub open spec fn ignore_patterns_spec(gitignore: Option<Seq<char>>) -> Seq<Seq<char>> {
    seq![".git"@, ".minigit"@] + match gitignore {
        Some(c) => patterns_of_lines(lines(c)),
        None => Seq::empty(),
    }
}

/// Strings as the text they hold.
pub open spec fn strings_view(v: Seq<String>) -> Seq<Seq<char>> {
    v.map_values(|s: String| s@)
}

/// The pattern one line of `.gitignore` gives.
fn pattern_from_line(line: &str) -> (r: Option<String>)
    ensures
        match pattern_of_line(line@) {
            Some(p) => r matches Some(x) && x@ == p,
            None => r is None,
        },
{
    let t = trim_text(line);
    let n = t.as_str().unicode_len();
    if n == 0 || t.as_str().get_char(0) == '#' {
        return None;
    }
    let mut k: usize = 0;
    while k < n && t.as_str().get_char(k) == '/'
        invariant
            k <= n,
            n == t@.len(),
            forall|j: int| 0 <= j < k ==> #[trigger] t@[j] == '/',
        decreases n - k,
    {
        k = k + 1;
    }
    proof {
        lemma_lead_count(t@, '/', k as int);
    }
    Some(substring(t.as_str(), k, n))
}

/// The ignore patterns, given the text of `.gitignore` if it could be read.
pub fn ignore_patterns(gitignore: Option<String>) -> (r: Vec<String>)
    ensures
        strings_view(r@) == ignore_patterns_spec(
            match gitignore {
                Some(c) => Some(c@),
                None => None,
            },
        ),
{
    let mut patterns: Vec<String> = Vec::new();
    patterns.push(String::from_str(".git"));
    patterns.push(String::from_str(".minigit"));
    let ghost base = strings_view(patterns@);
    proof {
        assert(base =~= seq![".git"@, ".minigit"@]);
    }
    match gitignore {
        None => {
            proof {
                assert(base + Seq::<Seq<char>>::empty() =~= base);
            }
        },
        Some(content) => {
            let text = content.as_str();
            let n = text.unicode_len();
            let mut pos: usize = 0;
            proof {
                assert(text@.subrange(0, n as int) =~= text@);
            }
            while pos < n
                invariant
                    pos <= n,
                    n == text@.len(),
                    base == seq![".git"@, ".minigit"@],
                    base + patterns_of_lines(lines(text@)) == strings_view(patterns@)
                        + patterns_of_lines(lines(text@.subrange(pos as int, n as int))),
                decreases n - pos,
            {
                let (line, next) = next_line(text, pos);
                let ghost ls = lines(text@.subrange(pos as int, n as int));
                let ghost before = strings_view(patterns@);
                match pattern_from_line(line.as_str()) {
                    Some(p) => {
                        patterns.push(p);
                        proof {
                            assert(strings_view(patterns@) =~= before + seq![
                                pattern_of_line(ls[0])->0,
                            ]);
                        }
                    },
                    None => {},
                }
                proof {
                    assert(patterns_of_lines(ls) == (match pattern_of_line(ls[0]) {
                        Some(p) => seq![p],
                        None => Seq::empty(),
                    }) + patterns_of_lines(ls.drop_first()));
                    assert(base + patterns_of_lines(lines(text@)) =~= strings_view(patterns@)
                        + patterns_of_lines(ls.drop_first()));
                }
                pos = next;
            }
            proof {
                assert(text@.subrange(n as int, n as int) =~= Seq::<char>::empty());
                assert(strings_view(patterns@) + Seq::<Seq<char>>::empty() =~= strings_view(
                    patterns@,
                ));
            }
        },
    }
    patterns
}

} // verus!
