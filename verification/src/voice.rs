//! Voices, speech errors and the word events that the speech engine reports.

use vstd::prelude::*;

use crate::text::{lossy_utf8, utf8_lossy};

verus! {

/// Identifies a system voice.
#[derive(Clone, Copy)]
pub struct VoiceSpec {
    pub creator: u32,
    pub id: u32,
}

/// The description the system gives of a voice. `name` is a Pascal string:
/// its first byte is the length of the name that follows.
pub struct VoiceDescription {
    pub length: i32,
    pub voice: VoiceSpec,
    pub version: i32,
    pub name: [u8; 64],
    pub comment: [u8; 256],
    pub gender: i16,
    pub age: i16,
    pub script: i16,
    pub language: i16,
    pub region: i16,
    pub reserved: [i32; 4],
}

/// A voice by name.
pub struct VoiceInfo {
    pub name: String,
    pub spec: VoiceSpec,
}

/// A failed speech call: the status code it returned and what was being done.
pub struct SpeechError {
    pub code: i16,
    pub context: String,
}

/// A spoken word: where it lies in the spoken text, in UTF-16 code units.
#[derive(Debug, Clone)]
pub struct WordEvent {
    pub utf16_pos: usize,
    pub utf16_len: usize,
}

/// Turns a status code into a result: 0 is success, anything else an error
/// that carries the code and `context`.
pub fn check(err: i16, context: &str) -> (r: Result<(), SpeechError>)
    ensures
        r is Ok <==> err == 0,
        r matches Err(e) ==> e.code == err && e.context@ == context@,
{
    if err == 0 {
        Ok(())
    } else {
        Err(SpeechError { code: err, context: String::from_str(context) })
    }
}

/// The text of a Pascal string: empty when the length byte is 0 or does not
/// fit in `data`, otherwise the bytes it counts decoded as UTF-8 with
/// invalid sequences replaced.
pub open spec fn pascal_text(data: Seq<u8>) -> Seq<char> {
    let len = data[0] as int;
    if len == 0 || len >= data.len() {
        Seq::empty()
    } else {
        lossy_utf8(data.subrange(1, 1 + len))
    }
}

/// Reads a Pascal string (a length byte followed by that many bytes).
pub fn pascal_to_string(data: &[u8]) -> (s: String)
    requires
        data@.len() > 0,
    ensures
        s@ == pascal_text(data@),
{
    let len = data[0] as usize;
    if len == 0 || len >= data.len() {
        return String::new();
    }
    let bytes = &data[1..1 + len];
    assert(bytes@ =~= data@.subrange(1, 1 + len));
    utf8_lossy(bytes)
}

/// Name for what `str::to_lowercase` makes of a string: its Unicode lowercase form.
pub uninterp spec fn lowercase(s: Seq<char>) -> Seq<char>;

/// Calls `str::to_lowercase`. The contract claims only that the result is
/// [`lowercase`] of the argument.
#[verifier::external_body]
fn to_lowercase(s: &str) -> (r: String)
    ensures
        r@ == lowercase(s@),
{
    s.to_lowercase()
}

/// The spec of the first voice whose name, lowered, is `target`:
/// `names[i]` is the lowered name of `voices[i]`.
pub open spec fn first_named(voices: Seq<VoiceInfo>, names: Seq<Seq<char>>, target: Seq<char>) -> Option<VoiceSpec>
    decreases voices.len(),
{
    if voices.len() == 0 || names.len() == 0 {
        None
    } else if names[0] == target {
        Some(voices[0].spec)
    } else {
        first_named(voices.drop_first(), names.drop_first(), target)
    }
}

/// [`first_named`] picks the first voice whose lowered name equals the
/// target exactly: it finds one exactly when some name equals the target,
/// and then that voice's name equals the target and no earlier name does.
pub proof fn lemma_first_named(voices: Seq<VoiceInfo>, names: Seq<Seq<char>>, target: Seq<char>)
    requires
        names.len() == voices.len(),
    ensures
        first_named(voices, names, target) is None <==> forall|i: int|
            0 <= i < names.len() ==> #[trigger] names[i] != target,
        first_named(voices, names, target) matches Some(s) ==> exists|i: int|
            0 <= i < names.len() && #[trigger] names[i] == target && s == voices[i].spec && forall|
                j: int,
            |
                0 <= j < i ==> names[j] != target,
    decreases voices.len(),
{
    if voices.len() > 0 {
        let vs = voices.drop_first();
        let ns = names.drop_first();
        lemma_first_named(vs, ns, target);
        if names[0] == target {
            assert(names[0] == target && forall|j: int| 0 <= j < 0 ==> names[j] != target);
        } else {
            if first_named(vs, ns, target) is None {
                assert forall|i: int| 0 <= i < names.len() implies #[trigger] names[i] != target by {
                    if i > 0 {
                        assert(names[i] == ns[i - 1]);
                    }
                }
            } else {
                let s = first_named(vs, ns, target)->Some_0;
                let k = choose|k: int|
                    0 <= k < ns.len() && #[trigger] ns[k] == target && s == vs[k].spec && forall|j: int|
                        0 <= j < k ==> ns[j] != target;
                assert(names[k + 1] == target && s == voices[k + 1].spec);
                assert forall|j: int| 0 <= j < k + 1 implies names[j] != target by {
                    if j > 0 {
                        assert(names[j] == ns[j - 1]);
                    }
                }
            }
        }
    }
}

proof fn lemma_lowered_first(
    voices: Seq<VoiceInfo>,
    lowered: Seq<String>,
    names: Seq<Seq<char>>,
    target: Seq<char>,
)
    requires
        lowered.len() == voices.len(),
        names == lowered.map_values(|s: String| s@),
    ensures
        first_named(voices, names, target) is None <==> forall|i: int|
            0 <= i < voices.len() ==> (#[trigger] lowered[i])@ != target,
        first_named(voices, names, target) matches Some(s) ==> exists|i: int|
            0 <= i < voices.len() && (#[trigger] lowered[i])@ == target && s == voices[i].spec
                && forall|j: int| 0 <= j < i ==> lowered[j]@ != target,
{
    lemma_first_named(voices, names, target);
    assert forall|i: int| 0 <= i < voices.len() implies names[i] == (#[trigger] lowered[i])@ by {}
    if first_named(voices, names, target) is Some {
        let s = first_named(voices, names, target)->Some_0;
        let k = choose|k: int|
            0 <= k < names.len() && #[trigger] names[k] == target && s == voices[k].spec && forall|
                j: int,
            |
                0 <= j < k ==> names[j] != target;
        assert(lowered[k]@ == target);
        assert forall|j: int| 0 <= j < k implies lowered[j]@ != target by {
            assert(names[j] == lowered[j]@);
        }
    }
}

/// Finds the first voice whose lowered name is `name_lower`, given the
/// lowered name of every voice in `lowered`.
pub fn find_lowered(voices: &Vec<VoiceInfo>, lowered: &Vec<String>, name_lower: &String) -> (r:
    Option<VoiceSpec>)
    requires
        lowered@.len() == voices@.len(),
    ensures
        r == first_named(voices@, lowered@.map_values(|s: String| s@), name_lower@),
        r is None <==> forall|i: int|
            0 <= i < voices@.len() ==> (#[trigger] lowered@[i])@ != name_lower@,
        r matches Some(s) ==> exists|i: int|
            0 <= i < voices@.len() && (#[trigger] lowered@[i])@ == name_lower@ && s == voices@[i].spec
                && forall|j: int| 0 <= j < i ==> lowered@[j]@ != name_lower@,
{
    let ghost names = lowered@.map_values(|s: String| s@);
    let mut i: usize = 0;
    assert(voices@.skip(0) =~= voices@);
    assert(names.skip(0) =~= names);
    while i < voices.len()
        invariant
            i <= voices@.len(),
            lowered@.len() == voices@.len(),
            names == lowered@.map_values(|s: String| s@),
            first_named(voices@, names, name_lower@) == first_named(
                voices@.skip(i as int),
                names.skip(i as int),
                name_lower@,
            ),
        decreases voices.len() - i,
    {
        proof {
            lemma_lowered_first(voices@, lowered@, names, name_lower@);
        }
        let ghost vs = voices@.skip(i as int);
        let ghost ns = names.skip(i as int);
        assert(vs.drop_first() =~= voices@.skip(i + 1));
        assert(ns.drop_first() =~= names.skip(i + 1));
        assert(ns[0] == lowered@[i as int]@);
        if lowered[i] == *name_lower {
            return Some(voices[i].spec);
        }
        i = i + 1;
    }
    proof {
        lemma_lowered_first(voices@, lowered@, names, name_lower@);
    }
    None
}

/// Finds a voice by name, ignoring case: the first voice whose name,
/// lowercased, equals `name` lowercased.
pub fn find_voice(voices: &Vec<VoiceInfo>, name: &str) -> (r: Option<VoiceSpec>)
    ensures
        r == first_named(
            voices@,
            voices@.map_values(|v: VoiceInfo| lowercase(v.name@)),
            lowercase(name@),
        ),
        r is None <==> forall|i: int|
            0 <= i < voices@.len() ==> lowercase((#[trigger] voices@[i]).name@) != lowercase(name@),
        r matches Some(s) ==> exists|i: int|
            0 <= i < voices@.len() && lowercase((#[trigger] voices@[i]).name@) == lowercase(name@)
                && s == voices@[i].spec && forall|j: int|
                0 <= j < i ==> lowercase(voices@[j].name@) != lowercase(name@),
{
    let name_lower = to_lowercase(name);
    let mut lowered: Vec<String> = Vec::new();
    let mut i: usize = 0;
    while i < voices.len()
        invariant
            i <= voices@.len(),
            lowered@.len() == i,
            forall|j: int| 0 <= j < i ==> #[trigger] lowered@[j]@ == lowercase(voices@[j].name@),
        decreases voices.len() - i,
    {
        lowered.push(to_lowercase(voices[i].name.as_str()));
        i = i + 1;
    }
    assert(lowered@.map_values(|s: String| s@) =~= voices@.map_values(
        |v: VoiceInfo| lowercase(v.name@),
    ));
    let r = find_lowered(voices, &lowered, &name_lower);
    proof {
        let names = voices@.map_values(|v: VoiceInfo| lowercase(v.name@));
        lemma_first_named(voices@, names, lowercase(name@));
        assert forall|i: int| 0 <= i < voices@.len() implies names[i] == lowercase(
            (#[trigger] voices@[i]).name@,
        ) by {}
        if r is Some {
            let s = r->Some_0;
            let k = choose|k: int|
                0 <= k < names.len() && #[trigger] names[k] == lowercase(name@) && s
                    == voices@[k].spec && forall|j: int| 0 <= j < k ==> names[j] != lowercase(name@);
            assert(lowercase(voices@[k].name@) == lowercase(name@));
            assert forall|j: int| 0 <= j < k implies lowercase(voices@[j].name@) != lowercase(
                name@,
            ) by {
                assert(names[j] == lowercase(voices@[j].name@));
            }
        }
    }
    r
}

impl WordEvent {
    /// The word event for a range the engine reports: negative values count as 0.
    pub fn from_range(location: isize, length: isize) -> (e: Self)
        ensures
            e.utf16_pos == (if location > 0 {
                location as int
            } else {
                0
            }),
            e.utf16_len == (if length > 0 {
                length as int
            } else {
                0
            }),
    {
        let pos: usize = if location > 0 {
            location as usize
        } else {
            0
        };
        let len: usize = if length > 0 {
            length as usize
        } else {
            0
        };
        WordEvent { utf16_pos: pos, utf16_len: len }
    }
}

/// The word events reported but not yet taken, oldest first.
pub struct WordQueue {
    words: Vec<WordEvent>,
}

impl View for WordQueue {
    type V = Seq<WordEvent>;

    closed spec fn view(&self) -> Seq<WordEvent> {
        self.words@
    }
}

impl WordQueue {
    /// An empty queue.
    pub fn new() -> (q: Self)
        ensures
            q@ == Seq::<WordEvent>::empty(),
    {
        WordQueue { words: Vec::new() }
    }

    /// Adds a reported word at the end.
    pub fn push(&mut self, ev: WordEvent)
        ensures
            final(self)@ == old(self)@.push(ev),
    {
        self.words.push(ev);
    }

    /// The number of words waiting.
    pub fn len(&self) -> (n: usize)
        ensures
            n == self@.len(),
    {
        self.words.len()
    }

    /// Takes every waiting word, oldest first, and leaves the queue empty.
    pub fn drain(&mut self) -> (taken: Vec<WordEvent>)
        ensures
            taken@ == old(self)@,
            final(self)@ == Seq::<WordEvent>::empty(),
    {
        let mut taken: Vec<WordEvent> = Vec::new();
        std::mem::swap(&mut taken, &mut self.words);
        taken
    }
}

} // verus!
