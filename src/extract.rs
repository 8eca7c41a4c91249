use vstd::prelude::*;

use crate::text::chars_of;

verus! {

/// Where the scanner stands within one line.
#[derive(Clone, Copy, Debug, PartialEq, Eq, Structural)]
pub enum ParseState {
    /// Nothing read yet on this line.
    Start,
    /// After `<`: reading a name up to `>`.
    InAngleName,
    /// After `*`: a single space must follow.
    AfterStar,
    /// After `* `: reading a name up to the next space.
    InStarName,
}

/// What one character does to the scanner.
#[derive(Clone, Copy, Debug, PartialEq, Eq, Structural)]
pub enum Step {
    /// Keep scanning in the given state; a character read inside a name
    /// belongs to the name.
    Next(ParseState),
    /// The character ends the name read so far.
    Complete,
    /// The line names nobody.
    Abort,
}

/// The transition of the line scanner on one character. A newline never
/// belongs to a name.
pub fn step(state: ParseState, c: char) -> (r: Step)
    ensures
        c == '\n' ==> r == Step::Abort,
        c != '\n' && state == ParseState::Start ==> r == if c == '<' {
            Step::Next(ParseState::InAngleName)
        } else if c == '*' {
            Step::Next(ParseState::AfterStar)
        } else {
            Step::Abort
        },
        c != '\n' && state == ParseState::InAngleName ==> r == if c == '>' {
            Step::Complete
        } else {
            Step::Next(ParseState::InAngleName)
        },
        c != '\n' && state == ParseState::AfterStar ==> r == if c == ' ' {
            Step::Next(ParseState::InStarName)
        } else {
            Step::Abort
        },
        c != '\n' && state == ParseState::InStarName ==> r == if c == ' ' {
            Step::Complete
        } else {
            Step::Next(ParseState::InStarName)
        },
{
    if c == '\n' {
        return Step::Abort;
    }
    match state {
        ParseState::Start => {
            if c == '<' {
                Step::Next(ParseState::InAngleName)
            } else if c == '*' {
                Step::Next(ParseState::AfterStar)
            } else {
                Step::Abort
            }
        },
        ParseState::InAngleName => {
            if c == '>' {
                Step::Complete
            } else {
                Step::Next(ParseState::InAngleName)
            }
        },
        ParseState::AfterStar => {
            if c == ' ' {
                Step::Next(ParseState::InStarName)
            } else {
                Step::Abort
            }
        },
        ParseState::InStarName => {
            if c == ' ' {
                Step::Complete
            } else {
                Step::Next(ParseState::InStarName)
            }
        },
    }
}

/// `j` is the first position at or after `from` where `line` holds `stop`.
pub open spec fn first_stop(line: Seq<char>, from: int, stop: char, j: int) -> bool {
    &&& from <= j < line.len()
    &&& line[j] == stop
    &&& forall|k: int| from <= k < j ==> line[k] != stop
}

/// The characters from `from` up to the first `stop` after them, or none when
/// no `stop` follows.
pub open spec fn text_before(line: Seq<char>, from: int, stop: char) -> Option<Seq<char>> {
    if exists|j: int| #[trigger] first_stop(line, from, stop, j) {
        Some(line.subrange(from, choose|j: int| #[trigger] first_stop(line, from, stop, j)))
    } else {
        None
    }
}

/// The participant that one line (without its newline) names: `<name> ...`
/// or `* name ...`; none for any other line.
pub open spec fn line_name(line: Seq<char>) -> Option<Seq<char>> {
    if line.len() >= 1 && line[0] == '<' {
        text_before(line, 1, '>')
    } else if line.len() >= 2 && line[0] == '*' && line[1] == ' ' {
        text_before(line, 2, ' ')
    } else {
        None
    }
}

proof fn lemma_first_stop(line: Seq<char>, from: int, stop: char, j: int)
    requires
        first_stop(line, from, stop, j),
    ensures
        text_before(line, from, stop) == Some(line.subrange(from, j)),
{
    let j2 = choose|j2: int| #[trigger] first_stop(line, from, stop, j2);
    if j2 < j {
        assert(line[j2] != stop);
    } else if j2 > j {
        assert(line[j] != stop);
    }
}

proof fn lemma_no_stop(line: Seq<char>, from: int, stop: char)
    requires
        forall|k: int| from <= k < line.len() ==> line[k] != stop,
    ensures
        text_before(line, from, stop) is None,
{
    if exists|j: int| #[trigger] first_stop(line, from, stop, j) {
        let j = choose|j: int| #[trigger] first_stop(line, from, stop, j);
        assert(line[j] == stop);
    }
}

/// Where, within `t[from..to]`, the name that this line announces lies.
fn name_span(t: &Vec<char>, from: usize, to: usize) -> (r: Option<(usize, usize)>)
    requires
        from <= to <= t@.len(),
        forall|k: int| from <= k < to ==> t@[k] != '\n',
    ensures
        match r {
            Some((a, b)) => from <= a <= b <= to && line_name(t@.subrange(from as int, to as int))
                == Some(t@.subrange(a as int, b as int)),
            None => line_name(t@.subrange(from as int, to as int)) is None,
        },
{
    let ghost line = t@.subrange(from as int, to as int);
    let mut state = ParseState::Start;
    let mut i = from;
    while i < to
        invariant
            from <= i <= to <= t@.len(),
            line == t@.subrange(from as int, to as int),
            forall|k: int| from <= k < to ==> t@[k] != '\n',
            state == ParseState::Start ==> i == from,
            state == ParseState::InAngleName ==> i > from && t@[from as int] == '<' && forall|k: int|
                from + 1 <= k < i ==> t@[k] != '>',
            state == ParseState::AfterStar ==> i == from + 1 && t@[from as int] == '*',
            state == ParseState::InStarName ==> i >= from + 2 && t@[from as int] == '*' && t@[from
                + 1] == ' ' && forall|k: int| from + 2 <= k < i ==> t@[k] != ' ',
        decreases to - i,
    {
        let c = t[i];
        assert(line[i - from] == c);
        match step(state, c) {
            Step::Next(s) => {
                state = s;
            },
            Step::Complete => {
                if state == ParseState::InAngleName {
                    proof {
                        assert(first_stop(line, 1, '>', i - from));
                        lemma_first_stop(line, 1, '>', i - from);
                        assert(line.subrange(1, i - from) =~= t@.subrange(from + 1, i as int));
                    }
                    return Some((from + 1, i));
                } else {
                    proof {
                        assert(first_stop(line, 2, ' ', i - from));
                        lemma_first_stop(line, 2, ' ', i - from);
                        assert(line.subrange(2, i - from) =~= t@.subrange(from + 2, i as int));
                    }
                    return Some((from + 2, i));
                }
            },
            Step::Abort => {
                return None;
            },
        }
        i = i + 1;
    }
    proof {
        if state == ParseState::InAngleName {
            lemma_no_stop(line, 1, '>');
        } else if state == ParseState::InStarName {
            lemma_no_stop(line, 2, ' ');
        }
    }
    None
}

/// The lines of `t`: the pieces between newlines, in order. A text without a
/// newline is one line, and a text that ends in a newline ends in an empty line.
pub open spec fn lines(t: Seq<char>) -> Seq<Seq<char>>
    decreases t.len(),
{
    if t.len() == 0 {
        seq![seq![]]
    } else {
        let rest = lines(t.drop_first());
        if t[0] == '\n' {
            seq![seq![]] + rest
        } else {
            rest.update(0, seq![t[0]] + rest[0])
        }
    }
}

/// The names that a sequence of lines announces, one per naming line, in order.
pub open spec fn names_in_lines(ls: Seq<Seq<char>>) -> Seq<Seq<char>>
    decreases ls.len(),
{
    if ls.len() == 0 {
        seq![]
    } else {
        let here = match line_name(ls[0]) {
            Some(n) => seq![n],
            None => seq![],
        };
        here + names_in_lines(ls.drop_first())
    }
}

/// `s` with each run of equal neighbours kept once.
pub open spec fn dedup_adjacent(s: Seq<Seq<char>>) -> Seq<Seq<char>>
    decreases s.len(),
{
    if s.len() == 0 {
        seq![]
    } else {
        let d = dedup_adjacent(s.drop_last());
        if d.len() > 0 && d.last() == s.last() {
            d
        } else {
            d.push(s.last())
        }
    }
}

/// The participants that a quote names, line by line in order of appearance,
/// a name repeated on consecutive naming lines kept once.
pub open spec fn participants(t: Seq<char>) -> Seq<Seq<char>> {
    dedup_adjacent(names_in_lines(lines(t)))
}

/// The texts of a sequence of strings.
pub open spec fn texts(v: Seq<String>) -> Seq<Seq<char>> {
    v.map_values(|s: String| s@)
}

proof fn lemma_lines_nonempty(t: Seq<char>)
    ensures
        lines(t).len() >= 1,
    decreases t.len(),
{
    if t.len() > 0 {
        lemma_lines_nonempty(t.drop_first());
    }
}

/// When `u[..e]` holds no newline and `e` ends it, that is the first line of `u`.
proof fn lemma_first_line(u: Seq<char>, e: int)
    requires
        0 <= e <= u.len(),
        forall|k: int| 0 <= k < e ==> u[k] != '\n',
        e == u.len() || u[e] == '\n',
    ensures
        lines(u) == seq![u.subrange(0, e)] + if e < u.len() {
            lines(u.subrange(e + 1, u.len() as int))
        } else {
            seq![]
        },
    decreases e,
{
    if e == 0 {
        if u.len() > 0 {
            assert(u.drop_first() =~= u.subrange(1, u.len() as int));
        }
        assert(u.subrange(0, 0) =~= Seq::<char>::empty());
        if u.len() == 0 {
            assert(lines(u) =~= seq![u.subrange(0, e)]);
        }
    } else {
        let v = u.drop_first();
        lemma_first_line(v, e - 1);
        lemma_lines_nonempty(v);
        if e < u.len() {
            assert(v.subrange(e, v.len() as int) =~= u.subrange(e + 1, u.len() as int));
        }
        assert(seq![u[0]] + v.subrange(0, e - 1) =~= u.subrange(0, e));
        assert(lines(u) =~= seq![u.subrange(0, e)] + if e < u.len() {
            lines(u.subrange(e + 1, u.len() as int))
        } else {
            seq![]
        });
    }
}

/// The participant that one line names, if any. The line is read up to its
/// first newline at most; what follows a completed name is ignored.
pub fn line_participant(line: &str) -> (r: Option<String>)
    ensures
        line_name(lines(line@)[0]) == match r {
            Some(s) => Some(s@),
            None => None::<Seq<char>>,
        },
{
    let t = chars_of(line);
    let mut e: usize = 0;
    while e < t.len() && t[e] != '\n'
        invariant
            e <= t@.len(),
            forall|k: int| 0 <= k < e ==> t@[k] != '\n',
        decreases t@.len() - e,
    {
        e = e + 1;
    }
    proof {
        lemma_first_line(t@, e as int);
        assert(t@.subrange(0, e as int) == lines(line@)[0]);
    }
    match name_span(&t, 0, e) {
        Some((a, b)) => Some(line.substring_char(a, b).to_string()),
        None => None,
    }
}

/// The participants that a quote names: for each line in order the name it
/// announces, a name equal to the one just before it kept once.
pub fn extract_participants(text: &str) -> (r: Vec<String>)
    ensures
        texts(r@) == participants(text@),
{
    let t = chars_of(text);
    let n = t.len();
    let mut out: Vec<String> = Vec::new();
    let ghost mut raw: Seq<Seq<char>> = seq![];
    let mut ls: usize = 0;
    assert(t@.subrange(0, n as int) =~= t@);
    loop
        invariant_except_break
            names_in_lines(lines(t@)) == raw + names_in_lines(lines(t@.subrange(ls as int, n as int))),
        invariant
            ls <= n == t@.len(),
            t@ == text@,
            texts(out@) == dedup_adjacent(raw),
        ensures
            names_in_lines(lines(t@)) == raw,
        decreases n - ls,
    {
        let mut e = ls;
        while e < n && t[e] != '\n'
            invariant
                ls <= e <= n == t@.len(),
                forall|k: int| ls <= k < e ==> t@[k] != '\n',
            decreases n - e,
        {
            e = e + 1;
        }
        let ghost u = t@.subrange(ls as int, n as int);
        let ghost rest: Seq<Seq<char>> = if e < n {
            lines(t@.subrange(e + 1, n as int))
        } else {
            seq![]
        };
        proof {
            lemma_first_line(u, e - ls);
            assert(u.subrange(0, e - ls) =~= t@.subrange(ls as int, e as int));
            if e < n {
                assert(u.subrange(e - ls + 1, u.len() as int) =~= t@.subrange(e + 1, n as int));
            }
            let ls_ = lines(u);
            assert(ls_[0] == t@.subrange(ls as int, e as int));
            assert(ls_.drop_first() =~= rest);
            if e == n {
                assert(names_in_lines(rest) =~= Seq::<Seq<char>>::empty());
            }
        }
        let ghost here: Seq<Seq<char>> = match line_name(t@.subrange(ls as int, e as int)) {
            Some(x) => seq![x],
            None => seq![],
        };
        assert(names_in_lines(lines(u)) == here + names_in_lines(rest));
        let ghost before = raw;
        match name_span(&t, ls, e) {
            Some((a, b)) => {
                let name = text.substring_char(a, b).to_string();
                assert(name@ == t@.subrange(a as int, b as int));
                let repeated = out.len() > 0 && out[out.len() - 1] == name;
                proof {
                    raw = raw.push(name@);
                    assert(raw.drop_last() =~= before);
                    assert(texts(out@).len() == out@.len());
                    if out@.len() > 0 {
                        assert(texts(out@).last() == out@.last()@);
                    }
                }
                let ghost out_before = out@;
                if !repeated {
                    out.push(name);
                    assert(texts(out@) =~= texts(out_before).push(name@));
                }
            },
            None => {},
        }
        assert(raw =~= before + here);
        assert(names_in_lines(lines(t@)) =~= raw + names_in_lines(rest));
        if e == n {
            assert(raw + names_in_lines(rest) =~= raw);
            break;
        }
        ls = e + 1;
    }
    out
}

} // verus!
