//! The conversation session: turn history, request-target construction,
//! and the per-event decisions of the streaming pipeline. The HTTP calls
//! themselves and the JSON codec live outside the library; they hand the
//! decoded frames in as plain values.

use vstd::prelude::*;

verus! {

/// The smallest unit of text exchanged with the remote API.
pub struct Part {
    pub text: String,
}

impl View for Part {
    type V = Seq<char>;

    open spec fn view(&self) -> Seq<char> {
        self.text@
    }
}

impl DeepView for Part {
    type V = Seq<char>;

    open spec fn deep_view(&self) -> Seq<char> {
        self.text@
    }
}

/// One turn of the conversation: who spoke, and their text fragments in
/// order. Immutable once appended to the history.
pub struct Content {
    pub role: String,
    pub parts: Vec<Part>,
}

pub ghost struct ContentView {
    pub role: Seq<char>,
    pub parts: Seq<Seq<char>>,
}

impl View for Content {
    type V = ContentView;

    open spec fn view(&self) -> ContentView {
        ContentView { role: self.role@, parts: self.parts.deep_view() }
    }
}

impl DeepView for Content {
    type V = ContentView;

    open spec fn deep_view(&self) -> ContentView {
        self.view()
    }
}

/// One candidate of a decoded frame: its content, if any, and the
/// reason the model stopped (a safety block leaves the content absent).
pub struct Candidate {
    pub content: Option<Content>,
    pub finish_reason: String,
}

pub ghost struct CandidateView {
    pub content: Option<ContentView>,
    pub finish_reason: Seq<char>,
}

impl View for Candidate {
    type V = CandidateView;

    open spec fn view(&self) -> CandidateView {
        CandidateView {
            content: match &self.content {
                Some(c) => Some(c@),
                None => None,
            },
            finish_reason: self.finish_reason@,
        }
    }
}

impl DeepView for Candidate {
    type V = CandidateView;

    open spec fn deep_view(&self) -> CandidateView {
        self.view()
    }
}

/// One decoded stream event: the candidates of one frame.
pub struct Data {
    pub candidates: Vec<Candidate>,
}

pub ghost struct DataView {
    pub candidates: Seq<CandidateView>,
}

impl View for Data {
    type V = DataView;

    open spec fn view(&self) -> DataView {
        DataView { candidates: self.candidates.deep_view() }
    }
}

impl DeepView for Data {
    type V = DataView;

    open spec fn deep_view(&self) -> DataView {
        self.view()
    }
}

/// The text fragment a frame contributes to the reply: the first part
/// of the first candidate's content. A frame without candidates, with a
/// blocked (content-free) candidate, or with an empty part list
/// contributes nothing and is skipped, not an error.
pub open spec fn spec_fragment_of(d: DataView) -> Option<Seq<char>> {
    if d.candidates.len() > 0 {
        match d.candidates[0].content {
            Some(c) => if c.parts.len() > 0 {
                Some(c.parts[0])
            } else {
                None
            },
            None => None,
        }
    } else {
        None
    }
}

/// The fragments a sequence of frames contributes, in order.
pub open spec fn spec_fragments(events: Seq<DataView>) -> Seq<Seq<char>>
    decreases events.len(),
{
    if events.len() == 0 {
        Seq::<Seq<char>>::empty()
    } else {
        (match spec_fragment_of(events[0]) {
            Some(t) => seq![t],
            None => Seq::<Seq<char>>::empty(),
        }) + spec_fragments(events.drop_first())
    }
}

/// How many frames of a sequence carry content.
pub open spec fn spec_count_with_content(events: Seq<DataView>) -> nat
    decreases events.len(),
{
    if events.len() == 0 {
        0
    } else {
        (if spec_fragment_of(events[0]) is Some {
            1nat
        } else {
            0nat
        }) + spec_count_with_content(events.drop_first())
    }
}

/// The reply accumulates exactly one fragment per frame whose candidate
/// has content: frames without content add nothing.
pub proof fn lemma_fragment_count(events: Seq<DataView>)
    ensures
        spec_fragments(events).len() == spec_count_with_content(events),
    decreases events.len(),
{
    if events.len() > 0 {
        lemma_fragment_count(events.drop_first());
    }
}

impl Data {
    /// Extract the fragment this frame contributes, if any.
    pub fn fragment(&self) -> (r: Option<String>)
        ensures
            r is Some <==> spec_fragment_of(self@) is Some,
            r matches Some(s) ==> spec_fragment_of(self@) == Some(s@),
    {
        if self.candidates.len() > 0 {
            proof {
                assert(self.candidates.deep_view()[0] == self.candidates@[0].deep_view());
            }
            match &self.candidates[0].content {
                Some(c) => {
                    if c.parts.len() > 0 {
                        proof {
                            assert(c.parts.deep_view()[0] == c.parts@[0].deep_view());
                        }
                        Some(String::from_str(c.parts[0].text.as_str()))
                    } else {
                        None
                    }
                }
                None => None,
            }
        } else {
            None
        }
    }
}

/// Append a frame's fragment, if it has one, to the reply accumulator.
/// Returns the fragment so the caller can forward it to the file worker
/// and display it.
pub fn process_event(parts: &mut Vec<Part>, d: &Data) -> (frag: Option<String>)
    ensures
        spec_fragment_of(d@) is Some ==> final(parts).deep_view() == old(
            parts,
        ).deep_view().push(spec_fragment_of(d@).unwrap()),
        spec_fragment_of(d@) is None ==> final(parts)@ == old(parts)@,
        frag is Some <==> spec_fragment_of(d@) is Some,
        frag matches Some(s) ==> spec_fragment_of(d@) == Some(s@),
{
    match d.fragment() {
        Some(s) => {
            let ghost pre = parts.deep_view();
            parts.push(Part { text: String::from_str(s.as_str()) });
            proof {
                assert(parts.deep_view() =~= pre.push(s@));
            }
            Some(s)
        }
        None => None,
    }
}

/// Run the accumulation step over a whole sequence of decoded frames:
/// the single-shot mode and tests drive the pipeline through this.
pub fn process_events(parts: &mut Vec<Part>, events: &Vec<Data>) -> (frags: Vec<String>)
    ensures
        final(parts).deep_view() == old(parts).deep_view() + spec_fragments(events.deep_view()),
        frags.deep_view() == spec_fragments(events.deep_view()),
{
    let ghost evs = events.deep_view();
    let ghost p0 = parts.deep_view();
    let mut frags: Vec<String> = Vec::new();
    let mut i: usize = 0;
    proof {
        assert(evs.skip(0) =~= evs);
        assert(frags.deep_view() =~= Seq::<Seq<char>>::empty());
        assert(p0 + Seq::<Seq<char>>::empty() =~= p0);
        assert(frags.deep_view() + spec_fragments(evs.skip(0)) =~= spec_fragments(evs));
    }
    while i < events.len()
        invariant
            i <= events.len(),
            evs == events.deep_view(),
            evs.len() == events.len(),
            parts.deep_view() == p0 + frags.deep_view(),
            spec_fragments(evs) == frags.deep_view() + spec_fragments(evs.skip(i as int)),
        decreases events.len() - i,
    {
        let ghost fpre = frags.deep_view();
        let ghost tail = evs.skip(i as int);
        proof {
            assert(events.deep_view()[i as int] == events@[i as int].deep_view());
            assert(tail[0] == evs[i as int]);
            assert(tail.drop_first() =~= evs.skip(i as int + 1));
        }
        match process_event(parts, &events[i]) {
            Some(s) => {
                frags.push(s);
                proof {
                    assert(frags.deep_view() =~= fpre.push(
                        spec_fragment_of(evs[i as int]).unwrap(),
                    ));
                    assert(spec_fragments(tail) == seq![spec_fragment_of(evs[i as int]).unwrap()]
                        + spec_fragments(tail.drop_first()));
                    assert(frags.deep_view() + spec_fragments(evs.skip(i as int + 1))
                        =~= spec_fragments(evs));
                    assert(parts.deep_view() =~= p0 + frags.deep_view());
                }
            }
            None => {
                proof {
                    assert(spec_fragments(tail) == spec_fragments(tail.drop_first()));
                }
            }
        }
        i += 1;
    }
    proof {
        assert(spec_fragments(evs.skip(evs.len() as int)) =~= Seq::<Seq<char>>::empty());
        assert(frags.deep_view() + Seq::<Seq<char>>::empty() =~= frags.deep_view());
        assert(parts.deep_view() =~= p0 + spec_fragments(evs));
    }
    frags
}

/// A character the prompt-derived file name drops: the members of
/// Unicode's White_Space set, the set `char::is_whitespace` tests.
pub open spec fn is_space(c: char) -> bool {
    ||| c == '\u{0009}'
    ||| c == '\u{000A}'
    ||| c == '\u{000B}'
    ||| c == '\u{000C}'
    ||| c == '\u{000D}'
    ||| c == '\u{0020}'
    ||| c == '\u{0085}'
    ||| c == '\u{00A0}'
    ||| c == '\u{1680}'
    ||| c == '\u{2000}'
    ||| c == '\u{2001}'
    ||| c == '\u{2002}'
    ||| c == '\u{2003}'
    ||| c == '\u{2004}'
    ||| c == '\u{2005}'
    ||| c == '\u{2006}'
    ||| c == '\u{2007}'
    ||| c == '\u{2008}'
    ||| c == '\u{2009}'
    ||| c == '\u{200A}'
    ||| c == '\u{2028}'
    ||| c == '\u{2029}'
    ||| c == '\u{202F}'
    ||| c == '\u{205F}'
    ||| c == '\u{3000}'
}

fn char_is_space(c: char) -> (r: bool)
    ensures
        r == is_space(c),
{
    c == '\u{0009}' || c == '\u{000A}' || c == '\u{000B}' || c == '\u{000C}' || c
        == '\u{000D}' || c == '\u{0020}' || c == '\u{0085}' || c == '\u{00A0}' || c
        == '\u{1680}' || c == '\u{2000}' || c == '\u{2001}' || c == '\u{2002}' || c
        == '\u{2003}' || c == '\u{2004}' || c == '\u{2005}' || c == '\u{2006}' || c
        == '\u{2007}' || c == '\u{2008}' || c == '\u{2009}' || c == '\u{200A}' || c
        == '\u{2028}' || c == '\u{2029}' || c == '\u{202F}' || c == '\u{205F}' || c
        == '\u{3000}'
}

/// `s` with its whitespace removed.
pub open spec fn spec_strip_ws(s: Seq<char>) -> Seq<char>
    decreases s.len(),
{
    if s.len() == 0 {
        Seq::<char>::empty()
    } else {
        let rest = spec_strip_ws(s.drop_first());
        if is_space(s[0]) {
            rest
        } else {
            seq![s[0]] + rest
        }
    }
}

pub proof fn lemma_strip_ws_concat(a: Seq<char>, b: Seq<char>)
    ensures
        spec_strip_ws(a + b) == spec_strip_ws(a) + spec_strip_ws(b),
    decreases a.len(),
{
    if a.len() == 0 {
        assert(a + b =~= b);
        assert(spec_strip_ws(a) + spec_strip_ws(b) =~= spec_strip_ws(b));
    } else {
        lemma_strip_ws_concat(a.drop_first(), b);
        assert((a + b).drop_first() =~= a.drop_first() + b);
        assert((a + b)[0] == a[0]);
        if is_space(a[0]) {
        } else {
            assert(seq![a[0]] + (spec_strip_ws(a.drop_first()) + spec_strip_ws(b)) =~= (seq![a[0]]
                + spec_strip_ws(a.drop_first())) + spec_strip_ws(b));
        }
    }
}

/// The file-name stem derived from a prompt: its first characters with
/// whitespace removed, truncated after twenty.
pub open spec fn spec_file_name(s: Seq<char>) -> Seq<char> {
    let t = spec_strip_ws(s);
    if t.len() <= 20 {
        t
    } else {
        t.take(20)
    }
}

/// Derive the file-name stem the session uses for a prompt's code
/// blocks.
pub fn derive_file_name(prompt: &str) -> (r: String)
    ensures
        r@ == spec_file_name(prompt@),
{
    let len = prompt.unicode_len();
    let mut out = String::new();
    let mut kept: usize = 0;
    let mut i: usize = 0;
    proof {
        assert(prompt@.take(0) =~= Seq::<char>::empty());
        assert(out@ =~= spec_strip_ws(prompt@.take(0)));
    }
    while i < len && kept < 20
        invariant
            i <= len,
            len == prompt@.len(),
            kept == out@.len(),
            kept <= 20,
            out@ == spec_strip_ws(prompt@.take(i as int)),
        decreases len - i,
    {
        let c = prompt.get_char(i);
        let ghost opre = out@;
        if !char_is_space(c) {
            let piece = prompt.substring_char(i, i + 1);
            out.append(piece);
            kept += 1;
        }
        proof {
            assert(prompt@.take(i as int + 1) =~= prompt@.take(i as int) + seq![c]);
            lemma_strip_ws_concat(prompt@.take(i as int), seq![c]);
            assert(seq![c].drop_first() =~= Seq::<char>::empty());
            assert(spec_strip_ws(seq![c].drop_first()) == spec_strip_ws(Seq::<char>::empty()));
            if is_space(c) {
                assert(spec_strip_ws(seq![c]) =~= Seq::<char>::empty());
                assert(opre + Seq::<char>::empty() =~= opre);
            } else {
                assert(spec_strip_ws(seq![c]) =~= seq![c] + Seq::<char>::empty());
                assert(spec_strip_ws(seq![c]) =~= seq![c]);
                assert(out@ =~= opre + seq![c]);
            }
        }
        i += 1;
    }
    proof {
        let full = spec_strip_ws(prompt@);
        if i >= len {
            assert(prompt@.take(len as int) =~= prompt@);
            assert(out@ == full);
        } else {
            assert(kept == 20);
            assert(prompt@ =~= prompt@.take(i as int) + prompt@.skip(i as int));
            lemma_strip_ws_concat(prompt@.take(i as int), prompt@.skip(i as int));
            assert(full == out@ + spec_strip_ws(prompt@.skip(i as int)));
            assert(full.len() > 20 ==> full.take(20) =~= out@);
            if full.len() <= 20 {
                assert(spec_strip_ws(prompt@.skip(i as int)).len() == 0);
                assert(full =~= out@);
            }
        }
    }
    out
}

/// The conversation session: remote-model coordinates and the turn
/// history that every request resends in full.
pub struct Genai {
    api_key: String,
    model_name: String,
    end_point: String,
    message_thread: Vec<Content>,
}

pub ghost struct GenaiView {
    pub api_key: Seq<char>,
    pub model_name: Seq<char>,
    pub end_point: Seq<char>,
    pub message_thread: Seq<ContentView>,
}

impl View for Genai {
    type V = GenaiView;

    closed spec fn view(&self) -> GenaiView {
        GenaiView {
            api_key: self.api_key@,
            model_name: self.model_name@,
            end_point: self.end_point@,
            message_thread: self.message_thread.deep_view(),
        }
    }
}

/// The role labels of the two sides of a conversation.
pub open spec fn user_role() -> Seq<char> {
    "user"@
}

pub open spec fn model_role() -> Seq<char> {
    "model"@
}

impl Genai {
    /// A fresh session against the generative-language endpoint, with
    /// an empty history.
    pub fn new(api_key: String, model_name: &str) -> (s: Self)
        ensures
            s@.api_key == api_key@,
            s@.model_name == model_name@,
            s@.end_point == "https://generativelanguage.googleapis.com/v1beta/models"@,
            s@.message_thread == Seq::<ContentView>::empty(),
    {
        let s = Genai {
            api_key,
            model_name: String::from_str(model_name),
            end_point: String::from_str("https://generativelanguage.googleapis.com/v1beta/models"),
            message_thread: Vec::new(),
        };
        proof {
            assert(s@.message_thread =~= Seq::<ContentView>::empty());
        }
        s
    }

    /// The history the request body is built from.
    pub fn history(&self) -> (h: &Vec<Content>)
        ensures
            h.deep_view() == self@.message_thread,
    {
        &self.message_thread
    }

    /// Record the user's prompt as the next turn.
    pub fn push_user_turn(&mut self, prompt: String)
        ensures
            final(self)@ == (GenaiView {
                message_thread: old(self)@.message_thread.push(
                    ContentView { role: user_role(), parts: seq![prompt@] },
                ),
                ..old(self)@
            }),
    {
        let ghost pv = prompt@;
        let mut parts: Vec<Part> = Vec::new();
        parts.push(Part { text: prompt });
        let content = Content { role: String::from_str("user"), parts };
        proof {
            assert(content@.parts =~= seq![pv]);
        }
        let ghost pre = self.message_thread.deep_view();
        self.message_thread.push(content);
        proof {
            assert(self.message_thread.deep_view() =~= pre.push(
                ContentView { role: user_role(), parts: seq![pv] },
            ));
        }
    }

    /// Record the assembled reply as the model's turn.
    pub fn push_model_turn(&mut self, parts: Vec<Part>)
        ensures
            final(self)@ == (GenaiView {
                message_thread: old(self)@.message_thread.push(
                    ContentView { role: model_role(), parts: parts.deep_view() },
                ),
                ..old(self)@
            }),
    {
        let ghost pv = parts.deep_view();
        let content = Content { role: String::from_str("model"), parts };
        let ghost pre = self.message_thread.deep_view();
        self.message_thread.push(content);
        proof {
            assert(self.message_thread.deep_view() =~= pre.push(
                ContentView { role: model_role(), parts: pv },
            ));
        }
    }

    /// Forget the conversation so far.
    pub fn reset_session(&mut self)
        ensures
            final(self)@ == (GenaiView {
                message_thread: Seq::<ContentView>::empty(),
                ..old(self)@
            }),
    {
        self.message_thread = Vec::new();
        proof {
            assert(self.message_thread.deep_view() =~= Seq::<ContentView>::empty());
        }
    }

    /// Target of the streaming call.
    pub fn stream_url(&self) -> (u: String)
        ensures
            u@ == self@.end_point + "/"@ + self@.model_name
                + ":streamGenerateContent?alt=sse&key="@ + self@.api_key,
    {
        let mut u = String::from_str(self.end_point.as_str());
        u.append("/");
        u.append(self.model_name.as_str());
        u.append(":streamGenerateContent?alt=sse&key=");
        u.append(self.api_key.as_str());
        u
    }

    /// Target of the single-shot call.
    pub fn query_url(&self) -> (u: String)
        ensures
            u@ == self@.end_point + "/"@ + self@.model_name + ":generateContent?key="@
                + self@.api_key,
    {
        let mut u = String::from_str(self.end_point.as_str());
        u.append("/");
        u.append(self.model_name.as_str());
        u.append(":generateContent?key=");
        u.append(self.api_key.as_str());
        u
    }

    /// Target of the model-listing call.
    pub fn models_url(&self) -> (u: String)
        ensures
            u@ == self@.end_point + "?key="@ + self@.api_key,
    {
        let mut u = String::from_str(self.end_point.as_str());
        u.append("?key=");
        u.append(self.api_key.as_str());
        u
    }
}

} // verus!
