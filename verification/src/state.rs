//! Sidecar file that remembers marks and position between runs.
use crate::order::{increasing, texts};
use crate::paths::{join, join_of};
use crate::text::same_text;
use vstd::prelude::*;
use vstd::string::*;

verus! {

pub const STATE_FILE: &'static str = ".cull-state.json";

/// The format that is written.
pub const STATE_VERSION: u32 = 1;

#[derive(Debug, Clone, PartialEq, Eq)]
pub struct State {
    pub version: u32,
    /// Stems of shots marked for deletion, each once and in order.
    pub marked: Vec<String>,
    /// Stem of the shot being viewed.
    pub cursor: Option<String>,
}

/// A state as texts.
#[verifier::ext_equal]
pub struct StateView {
    pub version: int,
    pub marked: Seq<Seq<char>>,
    pub cursor: Option<Seq<char>>,
}

impl View for State {
    type V = StateView;

    open spec fn view(&self) -> StateView {
        StateView {
            version: self.version as int,
            marked: texts(self.marked@),
            cursor: match self.cursor {
                Some(s) => Some(s@),
                None => None,
            },
        }
    }
}

impl StateView {
    /// The marked stems come in increasing order.
    pub open spec fn ordered(self) -> bool {
        increasing(self.marked)
    }
}

impl Default for State {
    fn default() -> (r: State)
        ensures
            r@ == (StateView { version: 0, marked: Seq::empty(), cursor: None }),
    {
        let r = State { version: 0, marked: Vec::new(), cursor: None };
        assert(r@.marked =~= Seq::empty());
        r
    }
}

impl State {
    /// Whether the shot of this stem is marked.
    pub fn is_marked(&self, stem: &str) -> (r: bool)
        ensures
            r == self@.marked.contains(stem@),
    {
        let mut i: usize = 0;
        while i < self.marked.len()
            invariant
                i <= self.marked.len(),
                forall|j: int| 0 <= j < i ==> #[trigger] self@.marked[j] != stem@,
            decreases self.marked.len() - i,
        {
            assert(self@.marked[i as int] == self.marked@[i as int]@);
            if same_text(self.marked[i].as_str(), stem) {
                return true;
            }
            i += 1;
        }
        false
    }

    /// The state as it is written: the same, with the current version.
    pub fn stamped(&self) -> (r: State)
        ensures
            r@ == (StateView { version: STATE_VERSION as int, ..self@ }),
    {
        let mut marked: Vec<String> = Vec::new();
        let mut i: usize = 0;
        while i < self.marked.len()
            invariant
                i <= self.marked.len(),
                texts(marked@) == self@.marked.take(i as int),
            decreases self.marked.len() - i,
        {
            let ghost prev = texts(marked@);
            let stem = self.marked[i].clone();
            marked.push(stem);
            assert(texts(marked@) =~= prev.push(stem@));
            assert(self@.marked.take(i + 1) =~= self@.marked.take(i as int).push(stem@));
            i += 1;
        }
        assert(self@.marked.take(i as int) =~= self@.marked);
        let cursor = match &self.cursor {
            Some(s) => Some(s.clone()),
            None => None,
        };
        State { version: STATE_VERSION, marked, cursor }
    }
}

/// Where the state of `dir` is kept.
pub fn path(dir: &str) -> (r: String)
    ensures
        r@ == join_of(dir@, STATE_FILE@),
{
    join(dir, STATE_FILE)
}

/// Where the state of `dir` is written before it takes the place of the old one.
pub fn tmp_path(dir: &str) -> (r: String)
    ensures
        r@ == join_of(dir@, STATE_FILE@ + ".tmp"@),
{
    let mut name = STATE_FILE.to_owned();
    name.append(".tmp");
    join(dir, name.as_str())
}

/// The state of a folder is kept in one hidden file in it, of the first format.
pub proof fn law_state_file()
    ensures
        STATE_FILE@ == ".cull-state.json"@,
        STATE_VERSION == 1,
{
}

/// The marked stems of a written state each come once, and in order.
pub proof fn law_marks_in_order(s: StateView, i: int, j: int)
    requires
        s.ordered(),
        0 <= i < j < s.marked.len(),
    ensures
        crate::order::text_lt(s.marked[i], s.marked[j]),
        s.marked[i] != s.marked[j],
{
    crate::order::lemma_text_trichotomy(s.marked[i], s.marked[j]);
}

} // verus!
