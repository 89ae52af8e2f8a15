//! What the runner is asked to do.
//!
//! ```text
//! ovreplay-run DIR [--input NAME=FILE ...] [--bench N]
//! ```
//!
//! Each `--input` file holds the raw bytes of one input. With no `--input`,
//! the recorded inference's own inputs are replayed and the outputs checked
//! against the recorded ones. `--bench` sets the number of timed runs after
//! the first.

use vstd::prelude::*;

use crate::error::{Error, ErrorView};
use crate::number::number;
use crate::plan::{num, size_field};
use crate::replay::{IoView, Replay};
use crate::text::{chars_of, same, text_of, views};

verus! {

pub const USAGE: &'static str = "usage: ovreplay-run DIR [--input NAME=FILE ...] [--bench N]";

/// How often a run is timed where nothing else is asked for.
pub const DEFAULT_BENCH: usize = 10;

/// An input, and the file that holds its bytes.
pub struct InputFile {
    pub name: String,
    pub file: String,
}

/// An `InputFile`, its texts taken as sequences.
pub struct InputFileView {
    pub name: Seq<char>,
    pub file: Seq<char>,
}

impl View for InputFile {
    type V = InputFileView;

    open spec fn view(&self) -> InputFileView {
        InputFileView { name: self.name@, file: self.file@ }
    }
}

/// What the runner is asked to do.
pub struct Args {
    pub dir: String,
    pub inputs: Vec<InputFile>,
    pub bench: usize,
}

/// An `Args` so far, its texts taken as sequences; the directory may be yet
/// to come.
pub struct ArgsView {
    pub dir: Option<Seq<char>>,
    pub inputs: Seq<InputFileView>,
    pub bench: usize,
}

impl View for Args {
    type V = ArgsView;

    open spec fn view(&self) -> ArgsView {
        ArgsView { dir: Some(self.dir@), inputs: views(self.inputs@), bench: self.bench }
    }
}

/// Where a character first stands in a text; its length where it stands
/// nowhere.
pub open spec fn first_index(s: Seq<char>, c: char) -> int
    decreases s.len(),
{
    if s.len() == 0 || s[0] == c {
        0
    } else {
        1 + first_index(s.drop_first(), c)
    }
}

/// The input that `NAME=FILE` names: the name ends at the first `=`.
pub open spec fn input_file(s: Seq<char>) -> Option<InputFileView> {
    let k = first_index(s, '=');
    if k < s.len() {
        Some(InputFileView { name: s.take(k), file: s.skip(k + 1) })
    } else {
        None
    }
}

/// What the runner is asked to do after these words, or what is said of the
/// first that it does not take.
pub open spec fn asked(words: Seq<Seq<char>>, a: ArgsView) -> Result<ArgsView, Seq<char>>
    decreases words.len(),
{
    if words.len() == 0 {
        if a.dir is None {
            Err(USAGE@)
        } else {
            Ok(a)
        }
    } else if words[0] == "--input"@ {
        if words.len() < 2 {
            Err(USAGE@)
        } else {
            match input_file(words[1]) {
                None => Err("--input wants NAME=FILE, got "@ + words[1]),
                Some(f) => asked(words.skip(2), ArgsView { inputs: a.inputs.push(f), ..a }),
            }
        }
    } else if words[0] == "--bench"@ {
        if words.len() < 2 {
            Err(USAGE@)
        } else {
            match size_field(Some(words[1])) {
                None => Err(USAGE@),
                Some(bench) => asked(words.skip(2), ArgsView { bench, ..a }),
            }
        }
    } else if words[0] == "-h"@ || words[0] == "--help"@ {
        Err(USAGE@)
    } else if a.dir is None && !(words[0].len() > 0 && words[0][0] == '-') {
        asked(words.skip(1), ArgsView { dir: Some(words[0]), ..a })
    } else {
        Err(USAGE@)
    }
}

/// Nothing but the defaults.
pub open spec fn not_asked() -> ArgsView {
    ArgsView { dir: None, inputs: seq![], bench: DEFAULT_BENCH }
}

proof fn lemma_first_index(s: Seq<char>, c: char, k: int)
    requires
        0 <= k <= s.len(),
        forall|i: int| 0 <= i < k ==> s[i] != c,
        k == s.len() || s[k] == c,
    ensures
        first_index(s, c) == k,
    decreases k,
{
    if k > 0 {
        lemma_first_index(s.drop_first(), c, k - 1);
    }
}

fn read_input(text: &str) -> (r: Option<InputFile>)
    ensures
        match r {
            Some(f) => input_file(text@) == Some(f@),
            None => input_file(text@) is None,
        },
{
    let chars: Vec<char> = chars_of(text);
    let n: usize = chars.len();
    let mut k: usize = 0;
    while k < n && chars[k] != '='
        invariant
            k <= n,
            n == chars@.len(),
            forall|i: int| 0 <= i < k ==> chars@[i] != '=',
        decreases n - k,
    {
        k += 1;
    }
    proof {
        lemma_first_index(text@, '=', k as int);
    }
    if k == n {
        return None;
    }
    let f: InputFile = InputFile { name: text_of(&chars, 0, k), file: text_of(&chars, k + 1, n) };
    assert(f.name@ =~= text@.take(k as int));
    assert(f.file@ =~= text@.skip(k as int + 1));
    Some(f)
}

fn begins_with_dash(text: &str) -> (r: bool)
    ensures
        r == (text@.len() > 0 && text@[0] == '-'),
{
    let chars: Vec<char> = chars_of(text);
    chars.len() > 0 && chars[0] == '-'
}

/// What the runner's words, its own name apart, ask for.
pub fn parse_args(words: &Vec<String>) -> (r: Result<Args, String>)
    ensures
        match r {
            Ok(a) => asked(views(words@), not_asked()) == Ok::<ArgsView, Seq<char>>(a@),
            Err(m) => asked(views(words@), not_asked()) == Err::<ArgsView, Seq<char>>(m@),
        },
{
    let ghost all = views(words@);
    let n: usize = words.len();
    let mut dir: Option<String> = None;
    let mut inputs: Vec<InputFile> = Vec::new();
    let mut bench: usize = DEFAULT_BENCH;
    let mut i: usize = 0;
    assert(all.skip(0) =~= all);
    assert(views(inputs@) =~= seq![]);
    while i < n
        invariant
            i <= n,
            n == words@.len(),
            all == views(words@),
            asked(all, not_asked()) == asked(
                all.skip(i as int),
                ArgsView {
                    dir: match dir {
                        Some(d) => Some(d@),
                        None => None,
                    },
                    inputs: views(inputs@),
                    bench,
                },
            ),
        decreases n - i,
    {
        let word: &str = words[i].as_str();
        let ghost rest = all.skip(i as int);
        proof {
            assert(rest[0] == word@);
            if i + 1 < n {
                assert(rest[1] == words@[i + 1]@);
                assert(rest.skip(2) =~= all.skip(i + 2));
            }
            assert(rest.skip(1) =~= all.skip(i + 1));
        }
        if same(word, "--input") {
            if n - i < 2 {
                return Err(USAGE.to_owned());
            }
            match read_input(words[i + 1].as_str()) {
                None => {
                    let mut m: String = "--input wants NAME=FILE, got ".to_owned();
                    m.append(words[i + 1].as_str());
                    return Err(m);
                },
                Some(f) => {
                    let ghost before = inputs@;
                    let ghost file = f@;
                    inputs.push(f);
                    assert(views(inputs@) =~= views(before).push(file));
                },
            }
            i += 2;
        } else if same(word, "--bench") {
            if n - i < 2 {
                return Err(USAGE.to_owned());
            }
            match num(Some(words[i + 1].as_str()), "") {
                Ok(times) => {
                    bench = times;
                },
                Err(_) => return Err(USAGE.to_owned()),
            }
            i += 2;
        } else if same(word, "-h") || same(word, "--help") {
            return Err(USAGE.to_owned());
        } else if dir.is_none() && !begins_with_dash(word) {
            dir = Some(word.to_owned());
            i += 1;
        } else {
            return Err(USAGE.to_owned());
        }
    }
    match dir {
        Some(dir) => Ok(Args { dir, inputs, bench }),
        None => Err(USAGE.to_owned()),
    }
}

/// Whether a file is given for the input of this name.
pub open spec fn is_given(given: Seq<InputFileView>, name: Seq<char>) -> bool {
    exists|i: int| 0 <= i < given.len() && (#[trigger] given[i]).name == name
}

/// The first of the inputs that no file is given for.
pub open spec fn first_missing(inputs: Seq<IoView>, given: Seq<InputFileView>) -> Option<Seq<char>>
    decreases inputs.len(),
{
    if inputs.len() == 0 {
        None
    } else if !is_given(given, inputs[0].name) {
        Some(inputs[0].name)
    } else {
        first_missing(inputs.drop_first(), given)
    }
}

fn gives(given: &Vec<InputFile>, name: &str) -> (r: bool)
    ensures
        r == is_given(views(given@), name@),
{
    let mut i: usize = 0;
    while i < given.len()
        invariant
            i <= given@.len(),
            forall|j: int| 0 <= j < i ==> (#[trigger] views(given@)[j]).name != name@,
        decreases given@.len() - i,
    {
        if same(given[i].name.as_str(), name) {
            assert(views(given@)[i as int].name == name@);
            return true;
        }
        i += 1;
    }
    false
}

/// Whether a file is given for every input: the first without one is the
/// error.
pub fn check_given(replay: &Replay, given: &Vec<InputFile>) -> (r: Result<(), Error>)
    ensures
        match first_missing(replay@.inputs, views(given@)) {
            None => r is Ok,
            Some(name) => r matches Err(e) && e@ == ErrorView::NoInput(
                name + " (pass --input "@ + name + "=FILE)"@,
            ),
        },
{
    let mut i: usize = 0;
    assert(replay@.inputs.skip(0) =~= replay@.inputs);
    while i < replay.inputs.len()
        invariant
            i <= replay.inputs@.len(),
            first_missing(replay@.inputs, views(given@)) == first_missing(
                replay@.inputs.skip(i as int),
                views(given@),
            ),
        decreases replay.inputs@.len() - i,
    {
        let name: &str = replay.inputs[i].name.as_str();
        assert(replay@.inputs.skip(i as int)[0].name == name@);
        assert(replay@.inputs.skip(i as int).drop_first() =~= replay@.inputs.skip(i + 1));
        if !gives(given, name) {
            let mut m: String = name.to_owned();
            m.append(" (pass --input ");
            m.append(name);
            m.append("=FILE)");
            return Err(Error::NoInput(m));
        }
        i += 1;
    }
    Ok(())
}

/// Where nothing is missing, every input has a file.
pub proof fn law_every_input_is_given(inputs: Seq<IoView>, given: Seq<InputFileView>)
    ensures
        first_missing(inputs, given) is None <==> forall|i: int|
            0 <= i < inputs.len() ==> is_given(given, (#[trigger] inputs[i]).name),
    decreases inputs.len(),
{
    if inputs.len() > 0 {
        let rest = inputs.drop_first();
        law_every_input_is_given(rest, given);
        if first_missing(inputs, given) is None {
            assert forall|i: int| 0 <= i < inputs.len() implies is_given(
                given,
                (#[trigger] inputs[i]).name,
            ) by {
                if i > 0 {
                    assert(rest[i - 1] == inputs[i]);
                }
            }
        } else if forall|i: int|
            0 <= i < inputs.len() ==> is_given(given, (#[trigger] inputs[i]).name) {
            assert(is_given(given, inputs[0].name));
            assert forall|i: int| 0 <= i < rest.len() implies is_given(
                given,
                (#[trigger] rest[i]).name,
            ) by {
                assert(rest[i] == inputs[i + 1]);
            }
        }
    }
}

/// The first input without a file is missing: those before it have one, and it
/// has none.
pub proof fn law_the_first_input_without_a_file_is_missing(
    inputs: Seq<IoView>,
    given: Seq<InputFileView>,
    k: int,
)
    requires
        0 <= k <= inputs.len(),
        forall|i: int|
            0 <= i < k ==> exists|j: int|
                0 <= j < given.len() && (#[trigger] given[j]).name == (#[trigger] inputs[i]).name,
        k < inputs.len() ==> forall|j: int|
            0 <= j < given.len() ==> (#[trigger] given[j]).name != inputs[k].name,
    ensures
        first_missing(inputs, given) == if k < inputs.len() {
            Some(inputs[k].name)
        } else {
            None
        },
    decreases inputs.len(),
{
    if inputs.len() > 0 && k > 0 {
        let rest = inputs.drop_first();
        assert(exists|j: int|
            0 <= j < given.len() && (#[trigger] given[j]).name == inputs[0].name);
        assert(is_given(given, inputs[0].name));
        assert forall|i: int| 0 <= i < k - 1 implies exists|j: int|
            0 <= j < given.len() && (#[trigger] given[j]).name == (#[trigger] rest[i]).name by {
            assert(rest[i] == inputs[i + 1]);
        }
        law_the_first_input_without_a_file_is_missing(rest, given, k - 1);
    }
}

/// Nothing of what is asked for is lost in its view.
pub proof fn law_what_is_asked_is_seen_whole(a: Args)
    ensures
        a@.dir == Some(a.dir@),
        a@.bench == a.bench,
        a@.inputs.len() == a.inputs@.len(),
        forall|i: int|
            0 <= i < a.inputs@.len() ==> (#[trigger] a@.inputs[i]).name == a.inputs@[i].name@
                && a@.inputs[i].file == a.inputs@[i].file@,
{
}

/// An input's name ends at the first `=`, and all behind it is the file.
pub proof fn law_names_end_at_the_first_sign(name: Seq<char>, file: Seq<char>)
    requires
        forall|i: int| 0 <= i < name.len() ==> name[i] != '=',
    ensures
        input_file(name + seq!['='] + file) == Some(InputFileView { name, file }),
        input_file(name) is None,
{
    let s = name + seq!['='] + file;
    let k = name.len() as int;
    lemma_first_index(s, '=', k);
    lemma_first_index(name, '=', k);
    assert(s.take(k) =~= name);
    assert(s.skip(k + 1) =~= file);
}

proof fn lemma_options()
    ensures
        "--input"@.len() == 7 && "--input"@[0] == '-' && "--input"@[2] == 'i',
        "--bench"@.len() == 7 && "--bench"@[0] == '-' && "--bench"@[2] == 'b',
        "--help"@.len() == 6 && "--help"@[0] == '-',
        "-h"@.len() == 2 && "-h"@[0] == '-',
{
    reveal_strlit("--input");
    reveal_strlit("--bench");
    reveal_strlit("--help");
    reveal_strlit("-h");
}

/// An option takes the word behind it: an input is added to those before, a
/// number of runs replaces the one before, and the words behind are read on.
/// Without its word, or with another, an option is refused.
pub proof fn law_options_take_a_word(w: Seq<char>, rest: Seq<Seq<char>>, a: ArgsView)
    ensures
        asked(seq!["--input"@, w] + rest, a) == match input_file(w) {
            Some(f) => asked(rest, ArgsView { inputs: a.inputs.push(f), ..a }),
            None => Err("--input wants NAME=FILE, got "@ + w),
        },
        asked(seq!["--bench"@, w] + rest, a) == match number(w, 10, usize::MAX as int) {
            Some(n) => asked(rest, ArgsView { bench: n as usize, ..a }),
            None => Err(USAGE@),
        },
        asked(seq!["--input"@], a) == Err::<ArgsView, Seq<char>>(USAGE@),
        asked(seq!["--bench"@], a) == Err::<ArgsView, Seq<char>>(USAGE@),
{
    lemma_options();
    assert((seq!["--input"@, w] + rest).skip(2) =~= rest);
    assert((seq!["--bench"@, w] + rest).skip(2) =~= rest);
}

/// A word that is no option is the directory, the first time; a second one, a
/// call for help, and any other word with a dash before it are refused, and so
/// is an end without a directory.
pub proof fn law_one_word_is_the_directory(w: Seq<char>, rest: Seq<Seq<char>>, a: ArgsView)
    ensures
        !(w.len() > 0 && w[0] == '-') && a.dir is None ==> asked(seq![w] + rest, a) == asked(
            rest,
            ArgsView { dir: Some(w), ..a },
        ),
        !(w.len() > 0 && w[0] == '-') && a.dir is Some ==> asked(seq![w] + rest, a) == Err::<
            ArgsView,
            Seq<char>,
        >(USAGE@),
        w.len() > 0 && w[0] == '-' && w != "--input"@ && w != "--bench"@ ==> asked(
            seq![w] + rest,
            a,
        ) == Err::<ArgsView, Seq<char>>(USAGE@),
        a.dir is Some ==> asked(Seq::empty(), a) == Ok::<ArgsView, Seq<char>>(a),
        a.dir is None ==> asked(Seq::empty(), a) == Err::<ArgsView, Seq<char>>(USAGE@),
{
    lemma_options();
    assert((seq![w] + rest)[0] == w);
    assert((seq![w] + rest).skip(1) =~= rest);
}

/// Where nothing is asked, no directory and no input is known, and ten runs
/// are timed; the usage says what can be asked.
pub proof fn law_ten_runs_are_timed()
    ensures
        USAGE@ == "usage: ovreplay-run DIR [--input NAME=FILE ...] [--bench N]"@,
        not_asked().dir is None,
        not_asked().inputs.len() == 0,
        not_asked().bench == 10,
{
}

} // verus!
