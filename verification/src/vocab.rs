//! The vocabulary: the words a patch may use. A word is either primitive —
//! it stands for an external processor unit and says how to run it and which
//! ports it has — or compound, a shortcut that expands to further patch
//! text. The vocabulary is loaded once and only read afterwards.

use vstd::prelude::*;
use crate::text::str_eq;

verus! {

/// A word which runs a dedicated unit process.
pub struct PrimitiveWord {
    /// Names of the input ports of the unit.
    pub inputs: Vec<String>,
    /// Names of the output ports of the unit.
    pub outputs: Vec<String>,
    /// Command to run the unit.
    pub cmd: String,
    /// Argument used to pass the generated client name to the unit.
    pub name_arg: String,
    /// Arguments bound positionally to the `'/'`-separated suffixes of the
    /// token, e.g. `delay/60` with `slash_args: ["--max-delay"]` passes
    /// `--max-delay 60` to the command.
    pub slash_args: Option<Vec<String>>,
    /// Arbitrary further arguments to pass to the command.
    pub extra_args: Option<Vec<String>>,
}

/// A word which is a shortcut for a series of other words, e.g. `sin_osc`
/// could expand to `phasor circle sin`.
pub struct CompoundWord {
    /// The patch text the word expands to.
    pub expansion: String,
}

pub enum WordDefinition {
    Primitive(PrimitiveWord),
    Compound(CompoundWord),
}

/// The mapping that a sequence of definitions builds up, later entries
/// overriding earlier ones with the same name.
pub open spec fn map_of(s: Seq<(String, WordDefinition)>) -> Map<Seq<char>, WordDefinition>
    decreases s.len(),
{
    if s.len() == 0 {
        Map::empty()
    } else {
        map_of(s.drop_last()).insert(s.last().0@, s.last().1)
    }
}

/// Mapping from word name to definition; keyed by the word before any `'/'`
/// separator, case-sensitive.
pub struct Vocabulary {
    entries: Vec<(String, WordDefinition)>,
}

impl View for Vocabulary {
    type V = Map<Seq<char>, WordDefinition>;

    closed spec fn view(&self) -> Map<Seq<char>, WordDefinition> {
        map_of(self.entries@)
    }
}

/// The machine limit a usable definition must respect: a primitive word's
/// declared port count fits the platform's word size.
pub open spec fn word_wf(d: WordDefinition) -> bool {
    d matches WordDefinition::Primitive(p) ==> p.inputs@.len() + p.outputs@.len() <= usize::MAX
}

proof fn lemma_map_of_contains(s: Seq<(String, WordDefinition)>, i: int)
    requires
        0 <= i < s.len(),
    ensures
        map_of(s).contains_key(s[i].0@),
    decreases s.len(),
{
    if i < s.len() - 1 {
        lemma_map_of_contains(s.drop_last(), i);
    }
}

proof fn lemma_map_of_found(s: Seq<(String, WordDefinition)>, i: int, k: Seq<char>)
    requires
        0 <= i < s.len(),
        s[i].0@ == k,
        forall|j: int| i < j < s.len() ==> s[j].0@ != k,
    ensures
        map_of(s).contains_key(k),
        map_of(s)[k] == s[i].1,
    decreases s.len(),
{
    if i < s.len() - 1 {
        lemma_map_of_found(s.drop_last(), i, k);
    }
}

proof fn lemma_map_of_absent(s: Seq<(String, WordDefinition)>, k: Seq<char>)
    requires
        forall|j: int| 0 <= j < s.len() ==> s[j].0@ != k,
    ensures
        !map_of(s).contains_key(k),
    decreases s.len(),
{
    if s.len() > 0 {
        lemma_map_of_absent(s.drop_last(), k);
    }
}

impl Vocabulary {
    /// An empty vocabulary.
    pub fn new() -> (r: Vocabulary)
        ensures
            r@ == Map::<Seq<char>, WordDefinition>::empty(),
    {
        Vocabulary { entries: Vec::new() }
    }

    /// Adds a definition for `name`, replacing an earlier one.
    pub fn insert(&mut self, name: String, def: WordDefinition)
        ensures
            final(self)@ == old(self)@.insert(name@, def),
    {
        self.entries.push((name, def));
        proof {
            assert(self.entries@.drop_last() =~= old(self).entries@);
        }
    }

    /// Whether every definition respects the machine limits the
    /// interpreter needs; checked once after loading.
    pub open spec fn wf(self) -> bool {
        forall|w: Seq<char>| self@.contains_key(w) ==> word_wf(#[trigger] self@[w])
    }

    /// Decides [`Vocabulary::wf`].
    pub fn well_formed(&self) -> (r: bool)
        ensures
            r == self.wf(),
    {
        let n = self.entries.len();
        let mut i: usize = 0;
        while i < n
            invariant
                0 <= i <= n,
                n == self.entries@.len(),
                forall|k: int|
                    0 <= k < i ==> word_wf(map_of(self.entries@)[(#[trigger] self.entries@[k]).0@]),
            decreases n - i,
        {
            proof {
                lemma_map_of_contains(self.entries@, i as int);
            }
            let d = self.lookup(self.entries[i].0.as_str());
            let ok = match d {
                Some(WordDefinition::Primitive(p)) => p.inputs.len() <= usize::MAX
                    - p.outputs.len(),
                Some(WordDefinition::Compound(_)) => true,
                None => true,
            };
            if !ok {
                proof {
                    assert(self@.contains_key(self.entries@[i as int].0@) && !word_wf(
                        self@[self.entries@[i as int].0@],
                    ));
                }
                return false;
            }
            i = i + 1;
        }
        proof {
            assert forall|w: Seq<char>| self@.contains_key(w) implies word_wf(self@[w]) by {
                if forall|k: int| 0 <= k < self.entries@.len() ==> (#[trigger] self.entries@[k]).0@
                    != w {
                    lemma_map_of_absent(self.entries@, w);
                } else {
                    let k = choose|k: int|
                        0 <= k < self.entries@.len() && (#[trigger] self.entries@[k]).0@ == w;
                    assert(word_wf(map_of(self.entries@)[self.entries@[k].0@]));
                }
            }
        }
        true
    }

    /// Looks the word up; no side effects.
    pub fn lookup(&self, name: &str) -> (r: Option<&WordDefinition>)
        ensures
            r is Some <==> self@.contains_key(name@),
            r matches Some(d) ==> *d == self@[name@],
    {
        let n = self.entries.len();
        let mut i: usize = n;
        while i > 0
            invariant
                0 <= i <= n,
                n == self.entries@.len(),
                forall|j: int| i <= j < n ==> self.entries@[j].0@ != name@,
            decreases i,
        {
            i = i - 1;
            if str_eq(self.entries[i].0.as_str(), name) {
                proof {
                    lemma_map_of_found(self.entries@, i as int, name@);
                }
                return Some(&self.entries[i].1);
            }
        }
        proof {
            lemma_map_of_absent(self.entries@, name@);
        }
        None
    }
}

/// The configuration the interpreter is constructed with.
pub struct Config {
    /// The words a patch may use.
    pub words: Vocabulary,
}

/// The conventional argument for passing the client name to a unit.
pub fn default_name_arg() -> (r: String)
    ensures
        r@ == "--name"@,
{
    String::from_str("--name")
}

} // verus!
