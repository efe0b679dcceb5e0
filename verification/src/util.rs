//! Expansion of indexed placeholders (`{0}`, `{1}`, ...) in a translated string.
//!
//! A format string is read once, character by character. `{{` and `}}` stand
//! for literal braces, `{` followed by decimal digits and `}` stands for the
//! argument with that index.

use vstd::prelude::*;

verus! {

/// The largest index a placeholder can name: `2^63 - 1`, which is more than
/// any list of arguments is long. Digits that spell a larger number are not
/// a number as far as the scanner is concerned.
pub const MAX_INDEX: u64 = 0x7FFF_FFFF_FFFF_FFFF;

/// Where the scanner stands between two characters.
#[derive(Clone, Copy, Debug)]
pub enum Mode {
    /// Ordinary text is copied.
    Normal,
    /// A `{` was read and not yet resolved.
    OpenBrace,
    /// A `{` and at least one digit were read.
    Digit,
    /// A `}` was read outside a placeholder.
    CloseBraceEscape,
}

/// The scanner's state: its mode, the text produced so far, the value of the
/// digits of the placeholder that is open (zero where none is), and whether
/// the format string was found broken.
pub struct Scan {
    pub mode: Mode,
    pub out: Seq<char>,
    pub index: nat,
    pub failed: bool,
}

/// What a whole call returns when a digit run is broken off by a character
/// that is neither a digit nor `}`.
pub open spec fn invalid_format_text() -> Seq<char> {
    "<invalid format>"@
}

/// What stands in for a placeholder whose index names no argument.
pub open spec fn out_of_range_text() -> Seq<char> {
    "<failed insertion due to array out-of-range>"@
}

/// What stands in for a placeholder whose digits are no index.
pub open spec fn invalid_number_text() -> Seq<char> {
    "<failed insertion due to invalid number format>"@
}

/// Whether `c` is one of the ten decimal digits.
pub open spec fn is_digit(c: char) -> bool {
    '0' <= c && c <= '9'
}

/// The number that a decimal digit stands for.
pub open spec fn digit_value(c: char) -> nat {
    (c as u32 - '0' as u32) as nat
}

/// The text that replaces a closed placeholder with the given index.
pub open spec fn filling(index: nat, args: Seq<Seq<char>>) -> Seq<char> {
    if index > MAX_INDEX {
        invalid_number_text()
    } else if index < args.len() {
        args[index as int]
    } else {
        out_of_range_text()
    }
}

/// The state before the first character.
pub open spec fn start() -> Scan {
    Scan { mode: Mode::Normal, out: Seq::empty(), index: 0, failed: false }
}

/// One transition of the scanner. A failed scan stays as it is.
pub open spec fn step(s: Scan, c: char, args: Seq<Seq<char>>) -> Scan {
    if s.failed {
        s
    } else {
        match s.mode {
            Mode::Normal => {
                if c == '{' {
                    Scan { mode: Mode::OpenBrace, ..s }
                } else if c == '}' {
                    Scan { mode: Mode::CloseBraceEscape, ..s }
                } else {
                    Scan { out: s.out.push(c), ..s }
                }
            },
            Mode::OpenBrace => {
                if c == '{' {
                    Scan { mode: Mode::Normal, out: s.out.push('{'), ..s }
                } else if is_digit(c) {
                    Scan { mode: Mode::Digit, index: digit_value(c), ..s }
                } else {
                    Scan { mode: Mode::Normal, ..s }
                }
            },
            Mode::Digit => {
                if is_digit(c) {
                    Scan { index: s.index * 10 + digit_value(c), ..s }
                } else if c == '}' {
                    Scan { mode: Mode::Normal, out: s.out + filling(s.index, args), index: 0, ..s }
                } else {
                    Scan { failed: true, ..s }
                }
            },
            Mode::CloseBraceEscape => {
                if c == '}' {
                    Scan { mode: Mode::Normal, out: s.out.push('}'), ..s }
                } else {
                    Scan { mode: Mode::Normal, out: s.out.push('}').push(c), ..s }
                }
            },
        }
    }
}

/// The state after all of `fmt` has been read.
pub open spec fn run(fmt: Seq<char>, args: Seq<Seq<char>>) -> Scan
    decreases fmt.len(),
{
    if fmt.len() == 0 {
        start()
    } else {
        step(run(fmt.drop_last(), args), fmt.last(), args)
    }
}

/// The expansion of `fmt` against `args`: the text produced when the end is
/// reached, or the error marker alone if the scan failed on the way. What is
/// pending at the end (an open brace, an unclosed digit run, a single `}`)
/// produces nothing.
pub open spec fn expand(fmt: Seq<char>, args: Seq<Seq<char>>) -> Seq<char> {
    let s = run(fmt, args);
    if s.failed {
        invalid_format_text()
    } else {
        s.out
    }
}

/// The arguments as texts.
pub open spec fn arg_texts(args: Seq<&str>) -> Seq<Seq<char>> {
    Seq::new(args.len(), |i: int| args[i]@)
}

/// A scan that has failed on a prefix has failed on the whole.
pub proof fn lemma_failure_is_final(fmt: Seq<char>, args: Seq<Seq<char>>, n: int)
    requires
        0 <= n <= fmt.len(),
        run(fmt.take(n), args).failed,
    ensures
        run(fmt, args).failed,
    decreases fmt.len() - n,
{
    if n == fmt.len() {
        assert(fmt.take(n) == fmt);
    } else {
        assert(fmt.take(n + 1).drop_last() == fmt.take(n));
        lemma_failure_is_final(fmt, args, n + 1);
    }
}

/// Outside a digit run no index is kept.
pub proof fn lemma_index_at_rest(fmt: Seq<char>, args: Seq<Seq<char>>)
    ensures
        !(run(fmt, args).mode is Digit) ==> run(fmt, args).index == 0,
    decreases fmt.len(),
{
    if fmt.len() > 0 {
        lemma_index_at_rest(fmt.drop_last(), args);
    }
}

/// A step appends to what was produced and looks at nothing of it.
pub proof fn lemma_step_behind(before: Seq<char>, s: Scan, c: char, args: Seq<Seq<char>>)
    ensures
        step(Scan { out: before + s.out, ..s }, c, args) == (Scan {
            out: before + step(s, c, args).out,
            ..step(s, c, args)
        }),
{
    let left = step(Scan { out: before + s.out, ..s }, c, args);
    let right = Scan { out: before + step(s, c, args).out, ..step(s, c, args) };
    assert(left.out =~= right.out);
}

/// A format string can be expanded in parts: where the scan of `a` ends
/// between placeholders, the scan of `a + b` produces what `a` gives and
/// then what `b` gives, and ends as the scan of `b` does. So the expansion
/// of the whole is the two expansions one after the other, unless `b` holds
/// a broken digit run.
pub proof fn expansion_of_parts(a: Seq<char>, b: Seq<char>, args: Seq<Seq<char>>)
    requires
        run(a, args).mode is Normal,
        !run(a, args).failed,
    ensures
        run(a + b, args) == (Scan { out: run(a, args).out + run(b, args).out, ..run(b, args) }),
        expand(a + b, args) == if run(b, args).failed {
            invalid_format_text()
        } else {
            expand(a, args) + expand(b, args)
        },
    decreases b.len(),
{
    if b.len() == 0 {
        lemma_index_at_rest(a, args);
        assert(a + b =~= a);
        assert(run(a, args).out + run(b, args).out =~= run(a, args).out);
    } else {
        let front = b.drop_last();
        assert((a + b).drop_last() =~= a + front);
        expansion_of_parts(a, front, args);
        lemma_step_behind(run(a, args).out, run(front, args), b.last(), args);
    }
}

/// Text without braces is kept as it is.
pub proof fn plain_text_is_kept(fmt: Seq<char>, args: Seq<Seq<char>>)
    requires
        forall|i: int| 0 <= i < fmt.len() ==> fmt[i] != '{' && fmt[i] != '}',
    ensures
        expand(fmt, args) == fmt,
        run(fmt, args).mode is Normal,
        !run(fmt, args).failed,
    decreases fmt.len(),
{
    if fmt.len() > 0 {
        let front = fmt.drop_last();
        assert forall|i: int| 0 <= i < front.len() implies front[i] != '{' && front[i] != '}' by {
            assert(front[i] == fmt[i]);
        }
        plain_text_is_kept(front, args);
        assert(front.push(fmt.last()) =~= fmt);
    } else {
        assert(fmt =~= Seq::empty());
    }
}

/// The name of the file that holds the table called `name`: the name with
/// the extension `.loc`.
pub fn table_file_name(name: &str) -> (file: String)
    ensures
        file@ == name@ + ".loc"@,
{
    let mut file = String::from_str(name);
    file.append(".loc");
    file
}

/// `String::push` appends one character.
pub assume_specification[ String::push ](s: &mut String, c: char)
    ensures
        final(s)@ == old(s)@.push(c),
;

/// Insert contents into the placeholders of `fmt`.
///
/// `{0}` is replaced by `args[0]`, and so on; `{{` and `}}` give `{` and `}`.
/// An index past the arguments, or one too large to be an index at all, is
/// replaced by a diagnostic text in place. A digit run that is not closed by
/// `}` makes the whole result the text `<invalid format>`.
pub fn insert(fmt: &str, args: &[&str]) -> (result: String)
    ensures
        result@ == expand(fmt@, arg_texts(args@)),
{
    let ghost texts = arg_texts(args@);
    let mut result = String::new();
    let mut mode = Mode::Normal;
    let mut index: u64 = 0;
    let mut too_large = false;

    for c in it: fmt.chars()
        invariant
            it.seq() == fmt@,
            texts == arg_texts(args@),
            index <= MAX_INDEX,
            ({
                let s = run(fmt@.take(it.index()), texts);
                &&& !s.failed
                &&& s.mode == mode
                &&& s.out == result@
                &&& mode is Digit ==> if too_large {
                    s.index > MAX_INDEX
                } else {
                    s.index == index
                }
            }),
    {
        proof {
            assert(fmt@.take(it.index() + 1).drop_last() == fmt@.take(it.index()));
        }
        match mode {
            Mode::Normal => {
                if c == '{' {
                    mode = Mode::OpenBrace;
                } else if c == '}' {
                    mode = Mode::CloseBraceEscape;
                } else {
                    result.push(c);
                }
            },
            Mode::OpenBrace => {
                if c == '{' {
                    result.push('{');
                    mode = Mode::Normal;
                } else if '0' <= c && c <= '9' {
                    index = (c as u32 - '0' as u32) as u64;
                    too_large = false;
                    mode = Mode::Digit;
                } else {
                    mode = Mode::Normal;
                }
            },
            Mode::Digit => {
                if '0' <= c && c <= '9' {
                    if !too_large {
                        if index > MAX_INDEX / 10 {
                            too_large = true;
                        } else {
                            let next: u64 = index * 10 + (c as u32 - '0' as u32) as u64;
                            if next > MAX_INDEX {
                                too_large = true;
                            } else {
                                index = next;
                            }
                        }
                    }
                } else if c == '}' {
                    if too_large {
                        result.append("<failed insertion due to invalid number format>");
                    } else if index < args.len() as u64 {
                        result.append(args[index as usize]);
                    } else {
                        result.append("<failed insertion due to array out-of-range>");
                    }
                    mode = Mode::Normal;
                } else {
                    proof {
                        lemma_failure_is_final(fmt@, texts, it.index() + 1);
                    }
                    return String::from_str("<invalid format>");
                }
            },
            Mode::CloseBraceEscape => {
                result.push('}');
                if c != '}' {
                    result.push(c);
                }
                mode = Mode::Normal;
            },
        }
    }
    proof {
        assert(fmt@.take(fmt@.len() as int) == fmt@);
    }
    result
}

} // verus!
