//! Notes and the aggregate statistics of a batch.

use vstd::prelude::*;

use crate::keywords::find_key;
use crate::text::{chars_of, copy_chars, split_words, view_words, words};

verus! {

/// A free-text note with its identifier and project (which may be empty).
pub struct Note {
    pub id: String,
    pub content: String,
    pub project: String,
}

impl Note {
    pub fn new(id: String, content: String, project: String) -> (r: Note)
        ensures
            r.id == id,
            r.content == content,
            r.project == project,
    {
        Note { id, content, project }
    }
}

/// Why a batch could not be analyzed.
#[derive(Debug, Clone, Copy, PartialEq, Eq)]
pub enum AnalysisError {
    /// A total does not fit in `usize`.
    CountOverflow,
}

/// The coarse statistics of a batch of notes.
#[derive(Debug, Clone, Copy, PartialEq, Eq)]
pub struct NoteAnalysis {
    pub note_count: usize,
    pub total_word_count: usize,
    pub unique_project_count: usize,
}

/// The number of whitespace-separated words over all notes' contents.
pub open spec fn total_words(notes: Seq<Note>) -> nat
    decreases notes.len(),
{
    if notes.len() == 0 {
        0
    } else {
        total_words(notes.drop_last()) + words(notes.last().content@).len()
    }
}

/// The distinct non-empty projects of the notes.
pub open spec fn projects(notes: Seq<Note>) -> Set<Seq<char>> {
    Set::new(
        |p: Seq<char>|
            p.len() > 0 && exists|i: int| 0 <= i < notes.len() && notes[i].project@ == p,
    )
}

proof fn lemma_total_words_prefix(notes: Seq<Note>, j: int)
    requires
        0 <= j <= notes.len(),
    ensures
        total_words(notes.subrange(0, j)) <= total_words(notes),
    decreases notes.len(),
{
    if j < notes.len() {
        assert(notes.subrange(0, j) == notes.drop_last().subrange(0, j));
        lemma_total_words_prefix(notes.drop_last(), j);
    } else {
        assert(notes.subrange(0, j) == notes);
    }
}

/// Counts the notes, their whitespace-separated words, and their distinct non-empty
/// projects.
pub fn analyze_notes_content(notes: &Vec<Note>) -> (r: Result<NoteAnalysis, AnalysisError>)
    ensures
        r is Err <==> total_words(notes@) > usize::MAX,
        r matches Ok(a) ==> {
            &&& a.note_count == notes.len()
            &&& a.total_word_count == total_words(notes@)
            &&& a.unique_project_count == projects(notes@).len()
        },
{
    let mut total: usize = 0;
    let mut seen: Vec<Vec<char>> = Vec::new();
    let mut i: usize = 0;
    while i < notes.len()
        invariant
            i <= notes.len(),
            total == total_words(notes@.subrange(0, i as int)),
            view_words(seen@).no_duplicates(),
            view_words(seen@).to_set() == projects(notes@.subrange(0, i as int)),
        decreases notes.len() - i,
    {
        let ghost pre = notes@.subrange(0, i as int);
        let ghost next = notes@.subrange(0, i + 1);
        assert(next.drop_last() == pre);
        let n = split_words(&chars_of(notes[i].content.as_str())).len();
        if n > usize::MAX - total {
            proof {
                lemma_total_words_prefix(notes@, i + 1);
            }
            return Err(AnalysisError::CountOverflow);
        }
        total = total + n;
        let p = chars_of(notes[i].project.as_str());
        let ghost old_seen = view_words(seen@);
        if p.len() > 0 {
            let found = find_key(&seen, &p);
            if let Some(j) = found {
                assert(view_words(seen@)[j as int] == p@);
            } else {
                seen.push(copy_chars(&p));
                proof {
                    assert(view_words(seen@) == old_seen.push(p@));
                    assert forall|k: int| 0 <= k < old_seen.len() implies old_seen[k] != p@ by {
                        assert(old_seen.contains(old_seen[k]));
                    }
                    old_seen.lemma_push_to_set_commute(p@);
                }
            }
        }
        proof {
            let new_set = view_words(seen@).to_set();
            assert(next[i as int] == notes@[i as int]);
            assert(old_seen.to_set().subset_of(new_set));
            assert(p@.len() > 0 ==> new_set.contains(p@));
            assert(new_set.subset_of(old_seen.to_set().insert(p@)));
            assert forall|q: Seq<char>| projects(next).contains(q) implies new_set.contains(q) by {
                let k = choose|k: int| 0 <= k < next.len() && next[k].project@ == q;
                if k < i {
                    assert(pre[k] == next[k]);
                    assert(projects(pre).contains(q));
                }
            }
            assert forall|q: Seq<char>| new_set.contains(q) implies projects(next).contains(q) by {
                if projects(pre).contains(q) {
                    let k = choose|k: int| 0 <= k < pre.len() && pre[k].project@ == q;
                    assert(next[k] == pre[k]);
                } else {
                    assert(q == p@);
                    assert(next[i as int].project@ == q);
                }
            }
            assert(projects(next) =~= new_set);
        }
        i = i + 1;
    }
    proof {
        assert(notes@.subrange(0, notes.len() as int) == notes@);
        view_words(seen@).unique_seq_to_set();
    }
    Ok(NoteAnalysis { note_count: notes.len(), total_word_count: total, unique_project_count: seen.len() })
}

} // verus!
