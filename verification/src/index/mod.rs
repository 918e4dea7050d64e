//! The index: the files staged for the next commit, each with the hash of
//! its blob and a status, and its text form, one line per file.
use vstd::prelude::*;

use crate::text::{
    find_char, first_index, lemma_first_index, lemma_first_index_after, lemma_lines_cons,
    lemma_split_step, lines, next_line, split_on, starts_with, strip_cr, substring,
};

verus! {

/// A staged file.
#[derive(Debug)]
pub struct IndexEntry {
    pub path: String,
    pub hash: String,
    pub status: String,
}

/// An entry as the text it holds: path, hash, status.
pub open spec fn entry_view(e: IndexEntry) -> (Seq<char>, Seq<char>, Seq<char>) {
    (e.path@, e.hash@, e.status@)
}

/// Entries as the text they hold.
pub open spec fn entries_view(v: Seq<IndexEntry>) -> Seq<(Seq<char>, Seq<char>, Seq<char>)> {
    v.map_values(|e: IndexEntry| entry_view(e))
}

impl IndexEntry {
    /// An entry for a path, with the hash of its blob and a status.
    pub fn new(path: &str, hash: &str, status: &str) -> (r: Self)
        ensures
            entry_view(r) == (path@, hash@, status@),
    {
        IndexEntry {
            path: String::from_str(path),
            hash: String::from_str(hash),
            status: String::from_str(status),
        }
    }
}

/// The staged files, in order.
pub struct Index {
    pub entries: Vec<IndexEntry>,
}

/// The position of the first entry for a path.
pub open spec fn position_of(es: Seq<(Seq<char>, Seq<char>, Seq<char>)>, path: Seq<char>) -> Option<
    int,
>
    decreases es.len(),
{
    if es.len() == 0 {
        None
    } else if es[0].0 == path {
        Some(0)
    } else {
        match position_of(es.drop_first(), path) {
            Some(i) => Some(i + 1),
            None => None,
        }
    }
}

/// What `position_of` is, in terms of positions.
pub proof fn lemma_position_of(es: Seq<(Seq<char>, Seq<char>, Seq<char>)>, path: Seq<char>)
    ensures
        position_of(es, path) matches Some(i) ==> 0 <= i < es.len() && es[i].0 == path && forall|
            j: int,
        | 0 <= j < i ==> es[j].0 != path,
        position_of(es, path) is None ==> forall|j: int| 0 <= j < es.len() ==> es[j].0 != path,
    decreases es.len(),
{
    if es.len() > 0 {
        lemma_position_of(es.drop_first(), path);
        if es[0].0 != path {
            assert forall|j: int| 1 <= j < es.len() implies es[j] == es.drop_first()[j - 1] by {}
        }
    }
}

/// A position holding the path, with none before it, is the first.
pub proof fn lemma_position_at(es: Seq<(Seq<char>, Seq<char>, Seq<char>)>, path: Seq<char>, i: int)
    requires
        0 <= i <= es.len(),
        i < es.len() ==> es[i].0 == path,
        forall|j: int| 0 <= j < i ==> es[j].0 != path,
    ensures
        position_of(es, path) == (if i < es.len() {
            Some(i)
        } else {
            None::<int>
        }),
{
    lemma_position_of(es, path);
    match position_of(es, path) {
        Some(k) => {
            if k < i {
                assert(es[k].0 != path);
            }
            if k > i && i < es.len() {
                assert(es[i].0 != path);
            }
        },
        None => {},
    }
}

impl Index {
    /// Whether nothing is staged.
    pub fn is_empty(&self) -> (r: bool)
        ensures
            r == (self.entries@.len() == 0),
    {
        self.entries.len() == 0
    }

    /// Stages one more entry, after the others.
    pub fn add(&mut self, entry: IndexEntry)
        ensures
            final(self).entries@ == old(self).entries@.push(entry),
    {
        self.entries.push(entry);
    }

    /// The position of the first entry for a path.
    pub fn position(&self, path: &str) -> (r: Option<usize>)
        ensures
            r matches Some(i) ==> position_of(entries_view(self.entries@), path@) == Some(i as int),
            r is None ==> position_of(entries_view(self.entries@), path@) is None,
    {
        let ghost es = entries_view(self.entries@);
        let key = String::from_str(path);
        let mut i: usize = 0;
        while i < self.entries.len()
            invariant
                i <= self.entries@.len(),
                es == entries_view(self.entries@),
                key@ == path@,
                forall|j: int| 0 <= j < i ==> es[j].0 != path@,
            decreases self.entries@.len() - i,
        {
            if self.entries[i].path == key {
                proof {
                    lemma_position_at(es, path@, i as int);
                }
                return Some(i);
            }
            i = i + 1;
        }
        proof {
            lemma_position_at(es, path@, i as int);
        }
        None
    }

    /// The entry at a position, to change in place.
    pub fn entry_mut(&mut self, i: usize) -> (r: &mut IndexEntry)
        requires
            i < old(self).entries@.len(),
        ensures
            *r == old(self).entries@[i as int],
            final(self).entries@ == old(self).entries@.update(i as int, *final(r)),
    {
        &mut self.entries[i]
    }

    /// The first entry for a path, to change in place.
    pub fn find_mut(&mut self, path: &str) -> (r: Option<&mut IndexEntry>)
        ensures
            position_of(entries_view(old(self).entries@), path@) is None ==> r is None,
            position_of(entries_view(old(self).entries@), path@) is None ==> final(self).entries@
                == old(self).entries@,
            position_of(entries_view(old(self).entries@), path@) matches Some(i) ==> (r matches Some(e)
                && *e == old(self).entries@[i]),
            position_of(entries_view(old(self).entries@), path@) matches Some(i) ==> (r matches Some(e)
                && final(self).entries@ == old(self).entries@.update(i, *final(e))),
    {
        proof {
            lemma_position_of(entries_view(self.entries@), path@);
        }
        match self.position(path) {
            Some(i) => Some(self.entry_mut(i)),
            None => None,
        }
    }
}


// ---------------------------------------------------------------------------
// The text of the index
// ---------------------------------------------------------------------------

/// A path without a leading `./`.
pub open spec fn strip_dot_slash(p: Seq<char>) -> Seq<char> {
    if p.len() >= 2 && p.subrange(0, 2) == "./"@ {
        p.subrange(2, p.len() as int)
    } else {
        p
    }
}

/// The entry a line of the index holds: status, path and hash are its first
/// three space-separated pieces, and a line with fewer holds none.
pub open spec fn entry_of_line(line: Seq<char>) -> Option<(Seq<char>, Seq<char>, Seq<char>)> {
    let parts = split_on(line, ' ');
    if parts.len() >= 3 {
        Some((strip_dot_slash(parts[1]), parts[2], parts[0]))
    } else {
        None
    }
}

/// The entries the lines hold, in order.
pub open spec fn entries_of_lines(ls: Seq<Seq<char>>) -> Seq<(Seq<char>, Seq<char>, Seq<char>)>
    decreases ls.len(),
{
    if ls.len() == 0 {
        Seq::empty()
    } else {
        (match entry_of_line(ls[0]) {
            Some(e) => seq![e],
            None => Seq::empty(),
        }) + entries_of_lines(ls.drop_first())
    }
}

/// The entries an index file holds.
pub open spec fn parse_index(text: Seq<char>) -> Seq<(Seq<char>, Seq<char>, Seq<char>)> {
    entries_of_lines(lines(text))
}

/// The line of the index file for an entry: status, `./` and path, hash.
pub open spec fn index_line(e: (Seq<char>, Seq<char>, Seq<char>)) -> Seq<char> {
    e.2 + " ./"@ + e.0 + " "@ + e.1 + "\n"@
}

/// The index file for these entries, a line each, in order.
pub open spec fn index_text(es: Seq<(Seq<char>, Seq<char>, Seq<char>)>) -> Seq<char>
    decreases es.len(),
{
    if es.len() == 0 {
        Seq::empty()
    } else {
        index_line(es[0]) + index_text(es.drop_first())
    }
}

/// The entry that one line of the index file holds.
pub fn entry_from_line(line: &str) -> (r: Option<IndexEntry>)
    ensures
        match entry_of_line(line@) {
            Some(e) => r matches Some(x) && entry_view(x) == e,
            None => r is None,
        },
{
    let ghost s = line@;
    let n = line.unicode_len();
    proof {
        assert(s.subrange(0, n as int) =~= s);
        lemma_split_step(s, ' ');
    }
    let p1 = match find_char(line, ' ', 0) {
        Some(p) => p,
        None => {
            return None;
        },
    };
    let ghost r1 = s.subrange(p1 + 1, n as int);
    proof {
        lemma_split_step(r1, ' ');
    }
    let p2 = match find_char(line, ' ', p1 + 1) {
        Some(p) => p,
        None => {
            return None;
        },
    };
    let ghost r2 = s.subrange(p2 + 1, n as int);
    proof {
        assert(r1.subrange(p2 - p1, r1.len() as int) =~= r2);
        lemma_split_step(r2, ' ');
    }
    let end3 = match find_char(line, ' ', p2 + 1) {
        Some(p) => p,
        None => n,
    };
    let status = substring(line, 0, p1);
    let mut path = substring(line, p1 + 1, p2);
    let prefix = "./";
    proof {
        reveal_strlit("./");
    }
    if starts_with(path.as_str(), prefix) {
        let m = path.as_str().unicode_len();
        path = substring(path.as_str(), 2, m);
    }
    let hash = substring(line, p2 + 1, end3);
    proof {
        let parts = split_on(s, ' ');
        assert(parts[0] == s.subrange(0, p1 as int));
        assert(parts[1] == r1.subrange(0, p2 - p1 - 1));
        assert(r1.subrange(0, p2 - p1 - 1) =~= s.subrange(p1 + 1, p2 as int));
        assert(parts[2] == split_on(r2, ' ')[0]);
        if end3 < n {
            assert(r2.subrange(0, end3 - p2 - 1) =~= s.subrange(p2 + 1, end3 as int));
        } else {
            assert(r2 =~= s.subrange(p2 + 1, end3 as int));
        }
    }
    Some(IndexEntry { path, hash, status })
}

impl Index {
    /// The index that a file's text holds: one entry per line that has at
    /// least three space-separated pieces.
    pub fn parse(text: &str) -> (r: Index)
        ensures
            entries_view(r.entries@) == parse_index(text@),
    {
        let n = text.unicode_len();
        let mut entries: Vec<IndexEntry> = Vec::new();
        let mut pos: usize = 0;
        proof {
            assert(text@.subrange(0, n as int) =~= text@);
            assert(entries_view(entries@) + parse_index(text@) =~= parse_index(text@));
        }
        while pos < n
            invariant
                pos <= n,
                n == text@.len(),
                parse_index(text@) == entries_view(entries@) + entries_of_lines(
                    lines(text@.subrange(pos as int, n as int)),
                ),
            decreases n - pos,
        {
            let (line, next) = next_line(text, pos);
            let ghost ls = lines(text@.subrange(pos as int, n as int));
            let ghost before = entries_view(entries@);
            match entry_from_line(line.as_str()) {
                Some(e) => {
                    entries.push(e);
                    proof {
                        assert(entries_view(entries@) =~= before + seq![entry_of_line(ls[0])->0]);
                    }
                },
                None => {},
            }
            proof {
                assert(entries_of_lines(ls) == (match entry_of_line(ls[0]) {
                    Some(e) => seq![e],
                    None => Seq::empty(),
                }) + entries_of_lines(ls.drop_first()));
                assert(parse_index(text@) =~= entries_view(entries@) + entries_of_lines(
                    ls.drop_first(),
                ));
            }
            pos = next;
        }
        proof {
            assert(text@.subrange(n as int, n as int) =~= Seq::<char>::empty());
            assert(entries_view(entries@) + Seq::<(Seq<char>, Seq<char>, Seq<char>)>::empty()
                =~= entries_view(entries@));
        }
        Index { entries }
    }

    /// The text of the index file: one line per entry, in order.
    pub fn to_text(&self) -> (r: String)
        ensures
            r@ == index_text(entries_view(self.entries@)),
    {
        let ghost es = entries_view(self.entries@);
        let mut out = String::new();
        let mut i: usize = 0;
        proof {
            assert(es.subrange(0, es.len() as int) =~= es);
            assert(out@ + index_text(es) =~= index_text(es));
        }
        while i < self.entries.len()
            invariant
                i <= self.entries@.len(),
                es == entries_view(self.entries@),
                index_text(es) == out@ + index_text(es.subrange(i as int, es.len() as int)),
            decreases self.entries@.len() - i,
        {
            let e = &self.entries[i];
            let ghost before = out@;
            out.append(e.status.as_str());
            out.append(" ./");
            out.append(e.path.as_str());
            out.append(" ");
            out.append(e.hash.as_str());
            out.append("\n");
            proof {
                let rest = es.subrange(i as int, es.len() as int);
                assert(rest[0] == entry_view(*e));
                assert(rest.drop_first() =~= es.subrange(i + 1, es.len() as int));
                assert(out@ =~= before + index_line(rest[0]));
            }
            i = i + 1;
        }
        proof {
            assert(es.subrange(es.len() as int, es.len() as int) =~= Seq::<
                (Seq<char>, Seq<char>, Seq<char>),
            >::empty());
        }
        out
    }
}

/// An entry whose line reads back unchanged: no space or newline in status,
/// path or hash, and a hash that does not end in `\r`.
pub open spec fn entry_plain(e: (Seq<char>, Seq<char>, Seq<char>)) -> bool {
    &&& !e.0.contains(' ') && !e.0.contains('\n')
    &&& !e.1.contains(' ') && !e.1.contains('\n')
    &&& !e.2.contains(' ') && !e.2.contains('\n')
    &&& (e.1.len() > 0 ==> e.1.last() != '\r')
}

proof fn lemma_lacks_concat(a: Seq<char>, b: Seq<char>, c: char)
    requires
        !a.contains(c),
        !b.contains(c),
    ensures
        !(a + b).contains(c),
{
    if (a + b).contains(c) {
        let k = choose|k: int| 0 <= k < (a + b).len() && (a + b)[k] == c;
        if k < a.len() {
            assert(a[k] == c);
        } else {
            assert(b[k - a.len()] == c);
        }
    }
}

/// Reading back one line of the index file gives its entry.
proof fn lemma_index_line_roundtrip(e: (Seq<char>, Seq<char>, Seq<char>))
    requires
        entry_plain(e),
    ensures
        entry_of_line(e.2 + " ./"@ + e.0 + " "@ + e.1) == Some(e),
{
    reveal_strlit(" ./");
    reveal_strlit(" ");
    reveal_strlit("./");
    let path = "./"@ + e.0;
    let line = e.2 + " ./"@ + e.0 + " "@ + e.1;
    let r1 = path + " "@ + e.1;
    assert(line =~= e.2 + (seq![' '] + r1));
    lemma_first_index_after(e.2, seq![' '] + r1, ' ');
    assert(first_index(seq![' '] + r1, ' ') == Some(0int));
    lemma_split_step(line, ' ');
    assert(line.subrange(0, e.2.len() as int) =~= e.2);
    assert(line.subrange(e.2.len() as int + 1, line.len() as int) =~= r1);
    assert(!path.contains(' ')) by {
        assert(!"./"@.contains(' ')) by {
            if "./"@.contains(' ') {
                let k = choose|k: int| 0 <= k < 2 && "./"@[k] == ' ';
            }
        }
        lemma_lacks_concat("./"@, e.0, ' ');
    }
    assert(r1 =~= path + (seq![' '] + e.1));
    lemma_first_index_after(path, seq![' '] + e.1, ' ');
    assert(first_index(seq![' '] + e.1, ' ') == Some(0int));
    lemma_split_step(r1, ' ');
    assert(r1.subrange(0, path.len() as int) =~= path);
    assert(r1.subrange(path.len() as int + 1, r1.len() as int) =~= e.1);
    lemma_first_index(e.1, ' ');
    lemma_split_step(e.1, ' ');
    assert(path.subrange(0, 2) =~= "./"@);
    assert(path.subrange(2, path.len() as int) =~= e.0);
}

/// Reading back the index file gives the entries that were written, when no
/// status, path or hash holds a space or a newline and no hash ends in `\r`.
pub proof fn law_index_roundtrip(es: Seq<(Seq<char>, Seq<char>, Seq<char>)>)
    requires
        forall|i: int| 0 <= i < es.len() ==> entry_plain(#[trigger] es[i]),
    ensures
        parse_index(index_text(es)) == es,
    decreases es.len(),
{
    if es.len() == 0 {
        assert(lines(Seq::<char>::empty()) =~= Seq::<Seq<char>>::empty());
    } else {
        let e = es[0];
        assert(entry_plain(e));
        assert forall|i: int| 0 <= i < es.drop_first().len() implies entry_plain(
            #[trigger] es.drop_first()[i],
        ) by {
            assert(es.drop_first()[i] == es[i + 1]);
        }
        law_index_roundtrip(es.drop_first());
        reveal_strlit(" ./");
        reveal_strlit(" ");
        reveal_strlit("\n");
        let line = e.2 + " ./"@ + e.0 + " "@ + e.1;
        assert(!line.contains('\n')) by {
            assert(!" ./"@.contains('\n')) by {
                if " ./"@.contains('\n') {
                    let k = choose|k: int| 0 <= k < 3 && " ./"@[k] == '\n';
                }
            }
            assert(!" "@.contains('\n')) by {
                if " "@.contains('\n') {
                    let k = choose|k: int| 0 <= k < 1 && " "@[k] == '\n';
                }
            }
            lemma_lacks_concat(e.2, " ./"@, '\n');
            lemma_lacks_concat(e.2 + " ./"@, e.0, '\n');
            lemma_lacks_concat(e.2 + " ./"@ + e.0, " "@, '\n');
            lemma_lacks_concat(e.2 + " ./"@ + e.0 + " "@, e.1, '\n');
        }
        let rest = index_text(es.drop_first());
        assert(index_text(es) =~= line + seq!['\n'] + rest);
        lemma_lines_cons(line, rest);
        assert(strip_cr(line) == line) by {
            if e.1.len() == 0 {
                assert(line.last() == ' ');
            } else {
                assert(line.last() == e.1.last());
            }
        }
        lemma_index_line_roundtrip(e);
        let ls = lines(index_text(es));
        assert(ls.drop_first() =~= lines(rest));
        assert(es =~= seq![e] + es.drop_first());
    }
}

} // verus!
