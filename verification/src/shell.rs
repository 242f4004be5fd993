//! What a shell makes of a command line: the commands of a pipeline, the
//! arguments of each command, and the files that its input and its output
//! are redirected to.
use vstd::prelude::*;
use vstd::string::StringSliceAdditionalSpecFns;

verus! {

/// The byte strings of `rows`.
pub open spec fn spec_rows(rows: Seq<Vec<u8>>) -> Seq<Seq<u8>> {
    Seq::new(rows.len(), |i: int| rows[i]@)
}

/// The pieces of `bytes` between the bytes `sep`. There is one piece more
/// than there are separators; a piece may be empty.
pub open spec fn spec_split(bytes: Seq<u8>, sep: u8) -> Seq<Seq<u8>>
    decreases bytes.len(),
{
    if bytes.len() == 0 {
        seq![Seq::<u8>::empty()]
    } else {
        let before = spec_split(bytes.drop_last(), sep);
        if bytes.last() == sep {
            before.push(Seq::<u8>::empty())
        } else {
            before.update(before.len() - 1, before.last().push(bytes.last()))
        }
    }
}

/// The pieces of `pieces` that are not empty, each with a NUL byte at its
/// end.
pub open spec fn spec_words(pieces: Seq<Seq<u8>>) -> Seq<Seq<u8>>
    decreases pieces.len(),
{
    if pieces.len() == 0 {
        Seq::empty()
    } else if pieces.last().len() == 0 {
        spec_words(pieces.drop_last())
    } else {
        spec_words(pieces.drop_last()).push(pieces.last().push(0u8))
    }
}

/// The word that is the byte `marker` alone.
pub open spec fn spec_marker(marker: u8) -> Seq<u8> {
    seq![marker, 0u8]
}

/// The place from `from` on of the first word of `words` that is `marker`
/// alone, or the number of words if there is none.
pub open spec fn spec_find_marker(words: Seq<Seq<u8>>, marker: u8, from: int) -> int
    decreases words.len() - from,
{
    if from < 0 || from >= words.len() {
        words.len() as int
    } else if words[from] == spec_marker(marker) {
        from
    } else {
        spec_find_marker(words, marker, from + 1)
    }
}

/// What `spec_find_marker` finds.
pub proof fn lemma_find_marker(words: Seq<Seq<u8>>, marker: u8, from: int)
    requires
        0 <= from <= words.len(),
    ensures
        from <= spec_find_marker(words, marker, from) <= words.len(),
        spec_find_marker(words, marker, from) < words.len() ==> words[spec_find_marker(
            words,
            marker,
            from,
        )] == spec_marker(marker),
        forall|k: int|
            from <= k < spec_find_marker(words, marker, from) ==> words[k] != spec_marker(marker),
    decreases words.len() - from,
{
    if from < words.len() && words[from] != spec_marker(marker) {
        lemma_find_marker(words, marker, from + 1);
    }
}

/// Is the first word `marker` of `words`, if there is one, followed by a
/// word?
pub open spec fn spec_has_target(words: Seq<Seq<u8>>, marker: u8) -> bool {
    spec_find_marker(words, marker, 0) < words.len() ==> spec_find_marker(words, marker, 0) + 1
        < words.len()
}

/// The word behind the first word `marker` of `words`, or nothing if no
/// word is `marker`.
pub open spec fn spec_target(words: Seq<Seq<u8>>, marker: u8) -> Seq<u8> {
    let at = spec_find_marker(words, marker, 0);
    if at + 1 < words.len() {
        words[at + 1]
    } else {
        Seq::empty()
    }
}

/// `words` without the first word `marker` and the word behind it.
pub open spec fn spec_without_target(words: Seq<Seq<u8>>, marker: u8) -> Seq<Seq<u8>> {
    let at = spec_find_marker(words, marker, 0);
    if at + 1 < words.len() {
        words.remove(at).remove(at)
    } else {
        words
    }
}

/// The words of the command `command`: what stands between its spaces.
pub open spec fn spec_command_words(command: Seq<u8>) -> Seq<Seq<u8>> {
    spec_words(spec_split(command, 0x20u8))
}

/// Can `command` be taken apart: is `<`, if it is a word of the command,
/// followed by a word, and `>`, if it is a word of the rest, too?
pub open spec fn spec_well_formed(command: Seq<u8>) -> bool {
    let words = spec_command_words(command);
    &&& spec_has_target(words, 0x3cu8)
    &&& spec_has_target(spec_without_target(words, 0x3cu8), 0x3eu8)
}

/// A command of a command line: its arguments, the first of which names
/// the program, and the files that its input and its output are redirected
/// to. All of them end with a NUL byte; a redirection that is not asked
/// for is the empty string.
pub struct ProcessArguments {
    pub input: Vec<u8>,
    pub output: Vec<u8>,
    pub args_copy: Vec<Vec<u8>>,
}

/// The pieces of `bytes` between the bytes `sep`.
pub fn split(bytes: &[u8], sep: u8) -> (pieces: Vec<Vec<u8>>)
    ensures
        spec_rows(pieces@) == spec_split(bytes@, sep),
{
    let mut pieces: Vec<Vec<u8>> = Vec::new();
    let mut current: Vec<u8> = Vec::new();
    let n: usize = bytes.len();
    let mut i: usize = 0;
    assert(spec_rows(pieces@).push(current@) =~= spec_split(bytes@.subrange(0, 0), sep));
    while i < n
        invariant
            i <= n,
            n == bytes@.len(),
            spec_rows(pieces@).push(current@) == spec_split(bytes@.subrange(0, i as int), sep),
        decreases n - i,
    {
        let b: u8 = bytes[i];
        let ghost rows = spec_rows(pieces@);
        let ghost word = current@;
        proof {
            assert(bytes@.subrange(0, i + 1).drop_last() =~= bytes@.subrange(0, i as int));
            assert(bytes@.subrange(0, i + 1).last() == b);
        }
        if b == sep {
            pieces.push(current);
            current = Vec::new();
            assert(spec_rows(pieces@) =~= rows.push(word));
        } else {
            current.push(b);
            assert(spec_rows(pieces@).push(current@) =~= rows.push(word).update(
                rows.len() as int,
                word.push(b),
            ));
        }
        i += 1;
    }
    assert(bytes@.subrange(0, n as int) =~= bytes@);
    let ghost rows = spec_rows(pieces@);
    pieces.push(current);
    assert(spec_rows(pieces@) =~= rows.push(current@));
    pieces
}

/// The pieces of `pieces` that are not empty, each with a NUL byte at its
/// end.
pub fn words(pieces: Vec<Vec<u8>>) -> (words: Vec<Vec<u8>>)
    ensures
        spec_rows(words@) == spec_words(spec_rows(pieces@)),
{
    let ghost all = spec_rows(pieces@);
    let mut pieces = pieces;
    let mut words: Vec<Vec<u8>> = Vec::new();
    let n: usize = pieces.len();
    let mut i: usize = 0;
    assert(spec_rows(words@) =~= spec_words(all.subrange(0, 0)));
    while i < n
        invariant
            i <= n,
            n == pieces@.len(),
            n == all.len(),
            forall|k: int| i <= k < n ==> pieces@[k]@ == all[k],
            spec_rows(words@) == spec_words(all.subrange(0, i as int)),
        decreases n - i,
    {
        let ghost rows = spec_rows(words@);
        proof {
            assert(all.subrange(0, i + 1).drop_last() =~= all.subrange(0, i as int));
            assert(all.subrange(0, i + 1).last() == all[i as int]);
        }
        if pieces[i].len() > 0 {
            let mut word: Vec<u8> = Vec::new();
            core::mem::swap(&mut word, &mut pieces[i]);
            word.push(0);
            words.push(word);
            assert(spec_rows(words@) =~= rows.push(all[i as int].push(0u8)));
        }
        i += 1;
    }
    assert(all.subrange(0, n as int) =~= all);
    words
}

/// Is `word` the byte `marker` alone, with the NUL byte at its end?
pub fn is_marker(word: &Vec<u8>, marker: u8) -> (r: bool)
    ensures
        r == (word@ == spec_marker(marker)),
{
    if word.len() == 2 {
        let r = word[0] == marker && word[1] == 0;
        proof {
            if r {
                assert(word@ =~= spec_marker(marker));
            } else {
                assert(spec_marker(marker)[0] == marker && spec_marker(marker)[1] == 0);
            }
        }
        r
    } else {
        assert(spec_marker(marker).len() == 2);
        false
    }
}

/// Takes the first word `marker` of `words` and the word behind it away,
/// and returns that word; the empty string if no word is `marker`.
/// `None`, with `words` as they were, if that word is the last one.
pub fn take_target(words: &mut Vec<Vec<u8>>, marker: u8) -> (target: Option<Vec<u8>>)
    ensures
        (target is Some) == spec_has_target(spec_rows(old(words)@), marker),
        target is None ==> final(words)@ == old(words)@,
        target is Some ==> target->0@ == spec_target(spec_rows(old(words)@), marker) && spec_rows(
            final(words)@,
        ) == spec_without_target(spec_rows(old(words)@), marker),
{
    let ghost rows = spec_rows(words@);
    let n: usize = words.len();
    let mut at: usize = 0;
    while at < n && !is_marker(&words[at], marker)
        invariant
            at <= n,
            n == words@.len(),
            *words == *old(words),
            rows == spec_rows(words@),
            spec_find_marker(rows, marker, 0) == spec_find_marker(rows, marker, at as int),
        decreases n - at,
    {
        at += 1;
    }
    if at == n {
        return Some(Vec::new());
    }
    if at + 1 == n {
        return None;
    }
    words.remove(at);
    let target: Vec<u8> = words.remove(at);
    assert(spec_rows(words@) =~= rows.remove(at as int).remove(at as int));
    assert(target@ == rows[at + 1]);
    Some(target)
}

impl ProcessArguments {
    /// The arguments of the command: the byte strings of `args_copy`.
    pub open spec fn spec_args(&self) -> Seq<Seq<u8>> {
        spec_rows(self.args_copy@)
    }

    /// Is this what `command` asks for: its words, without `<` and the word
    /// behind it, which names the input, and without `>` and the word
    /// behind it, which names the output?
    pub open spec fn spec_parsed(&self, command: Seq<u8>) -> bool {
        let words = spec_command_words(command);
        let rest = spec_without_target(words, 0x3cu8);
        &&& self.input@ == spec_target(words, 0x3cu8)
        &&& self.output@ == spec_target(rest, 0x3eu8)
        &&& self.spec_args() == spec_without_target(rest, 0x3eu8)
    }

    /// Takes the command `command` apart, if it can be taken apart.
    pub fn try_new(command: &str) -> (args: Option<Self>)
        ensures
            (args is Some) == spec_well_formed(command.spec_bytes()),
            args is Some ==> args->0.spec_parsed(command.spec_bytes()),
    {
        let pieces: Vec<Vec<u8>> = split(command.as_bytes(), 0x20);
        let mut args_copy: Vec<Vec<u8>> = words(pieces);
        let input: Vec<u8> = match take_target(&mut args_copy, 0x3c) {
            Some(input) => input,
            None => {
                return None;
            },
        };
        let output: Vec<u8> = match take_target(&mut args_copy, 0x3e) {
            Some(output) => output,
            None => {
                return None;
            },
        };
        Some(Self { input, output, args_copy })
    }

    /// Takes the command `command` apart.
    pub fn new(command: &str) -> (args: Self)
        requires
            spec_well_formed(command.spec_bytes()),
        ensures
            args.spec_parsed(command.spec_bytes()),
    {
        match Self::try_new(command) {
            Some(args) => args,
            None => vstd::pervasive::unreached(),
        }
    }
}

/// May the commands of a pipeline redirect as they do: in a pipeline of
/// more than one command only the first may redirect its input and only
/// the last its output?
pub open spec fn spec_pipeline_valid(commands: Seq<ProcessArguments>) -> bool {
    commands.len() == 1 || forall|i: int|
        0 <= i < commands.len() ==> {
            &&& i > 0 ==> (#[trigger] commands[i]).input@.len() == 0
            &&& (i == 0 || i < commands.len() - 1) ==> commands[i].output@.len() == 0
        }
}

/// May the commands of a pipeline redirect as they do?
pub fn pipeline_valid(commands: &Vec<ProcessArguments>) -> (valid: bool)
    ensures
        valid == spec_pipeline_valid(commands@),
{
    let n: usize = commands.len();
    if n == 1 {
        return true;
    }
    let mut i: usize = 0;
    while i < n
        invariant
            i <= n,
            n == commands@.len(),
            n != 1,
            forall|k: int|
                0 <= k < i ==> {
                    &&& k > 0 ==> (#[trigger] commands@[k]).input@.len() == 0
                    &&& (k == 0 || k < n - 1) ==> commands@[k].output@.len() == 0
                },
        decreases n - i,
    {
        let input: bool = commands[i].input.len() > 0;
        let output: bool = commands[i].output.len() > 0;
        if (i > 0 && input) || ((i == 0 || i < n - 1) && output) {
            return false;
        }
        i += 1;
    }
    true
}

} // verus!
