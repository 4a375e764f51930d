//! The shell frontend's first stage: a command line is split into
//! Bourne-style words and lifted to a vector of shell elements, with
//! one level of process substitution `<( … )` folded into a subcommand.
use crate::errors::Error;
use vstd::prelude::*;

verus! {

/// One element of a first-stage parse of a command line.
pub enum RawShellElement {
    Str(String),
    Stdin,
    Stdout,
    Stderr,
    Pipe,
    StdoutAppend,
    Subcmd(SubCommand),
}

/// A process substitution's elements.
pub struct SubCommand {
    pub elts: Vec<RawShellElement>,
}

/// A command line lifted to a vector of shell elements.
pub struct ShellSplit {
    pub elts: Vec<RawShellElement>,
}

/// The mathematical value of a shell element.
#[verifier::ext_equal]
pub enum ShellElemView {
    Str(Seq<char>),
    Stdin,
    Stdout,
    Stderr,
    Pipe,
    StdoutAppend,
    Subcmd(Seq<ShellElemView>),
}

/// The mathematical value of one element.
pub open spec fn elem_view(e: RawShellElement) -> ShellElemView
    decreases e,
{
    match e {
        RawShellElement::Str(s) => ShellElemView::Str(s@),
        RawShellElement::Stdin => ShellElemView::Stdin,
        RawShellElement::Stdout => ShellElemView::Stdout,
        RawShellElement::Stderr => ShellElemView::Stderr,
        RawShellElement::Pipe => ShellElemView::Pipe,
        RawShellElement::StdoutAppend => ShellElemView::StdoutAppend,
        RawShellElement::Subcmd(sc) => ShellElemView::Subcmd(elems_view(sc.elts@)),
    }
}

/// The mathematical values of an element vector.
pub open spec fn elems_view(s: Seq<RawShellElement>) -> Seq<ShellElemView>
    decreases s,
{
    if s.len() == 0 {
        Seq::empty()
    } else {
        seq![elem_view(s[0])] + elems_view(s.drop_first())
    }
}

/// The word list `shellwords::split` produces for a line, or `None`
/// when the line's quotes are mismatched.  The result depends on the
/// line alone.
pub uninterp spec fn shell_words_of(s: Seq<char>) -> Option<Seq<Seq<char>>>;

/// The mathematical values of a word vector.
pub open spec fn words_view(v: Seq<String>) -> Seq<Seq<char>> {
    v.map_values(|w: String| w@)
}

/// Relies on shellwords::split: Bourne-shell word splitting that
/// honors single quotes, double quotes and backslashes, and fails
/// exactly on a quoted word missing its closing quote.  `None` of the
/// named result stands for that failure.
#[verifier::external_body]
fn split_words(cmd: &str) -> (r: Result<Vec<String>, Error>)
    ensures
        match r {
            Ok(v) => shell_words_of(cmd@) == Some(words_view(v@)),
            Err(e) => e == Error::Quotes && shell_words_of(cmd@) is None,
        },
{
    match shellwords::split(cmd) {
        Ok(v) => Ok(v),
        Err(_) => Err(Error::Quotes),
    }
}

/// The element a single word denotes: a redirection or pipe operator,
/// or a literal.  Globbing is a non-goal, so `*` and friends stay
/// literal words.
pub open spec fn word_elem(w: Seq<char>) -> ShellElemView {
    if w == "<"@ {
        ShellElemView::Stdin
    } else if w == ">"@ {
        ShellElemView::Stdout
    } else if w == ">>"@ {
        ShellElemView::StdoutAppend
    } else if w == "2>"@ {
        ShellElemView::Stderr
    } else if w == "|"@ {
        ShellElemView::Pipe
    } else {
        ShellElemView::Str(w)
    }
}

/// The words of a substitution body, lifted one by one.
pub open spec fn lift_inner(ws: Seq<Seq<char>>) -> Seq<ShellElemView>
    decreases ws.len(),
{
    if ws.len() == 0 {
        Seq::empty()
    } else {
        seq![word_elem(ws[0])] + lift_inner(ws.drop_first())
    }
}

/// The index of the first word that opens or closes a substitution,
/// or a negative value when there is none.
pub open spec fn first_delim(ws: Seq<Seq<char>>) -> int
    decreases ws.len(),
{
    if ws.len() == 0 {
        -1
    } else if ws[0] == "<("@ || ws[0] == ")"@ {
        0
    } else {
        let r = first_delim(ws.drop_first());
        if r < 0 {
            -1
        } else {
            r + 1
        }
    }
}

/// The lift of a word list to shell elements: operators become their
/// elements, `<(` opens a single-level substitution closed by the next
/// `)` and stands for a `Stdin` followed by the subcommand, an
/// unclosed `<(` fails, and a substitution inside a substitution is
/// rejected.
pub open spec fn lift_tokens(ws: Seq<Seq<char>>) -> Result<Seq<ShellElemView>, Error>
    decreases ws.len(),
{
    if ws.len() == 0 {
        Ok(Seq::empty())
    } else if ws[0] == "<("@ {
        let rest = ws.drop_first();
        let d = first_delim(rest);
        if d < 0 || d >= rest.len() {
            Err(Error::UnclosedParens)
        } else if rest[d] == "<("@ {
            Err(Error::BadStructure)
        } else {
            match lift_tokens(rest.skip(d + 1)) {
                Ok(tail) => Ok(
                    seq![
                        ShellElemView::Stdin,
                        ShellElemView::Subcmd(lift_inner(rest.take(d))),
                    ] + tail,
                ),
                Err(e) => Err(e),
            }
        }
    } else {
        match lift_tokens(ws.drop_first()) {
            Ok(tail) => Ok(seq![word_elem(ws[0])] + tail),
            Err(e) => Err(e),
        }
    }
}

/// True when a word equals a pattern.
fn word_is(w: &String, pat: &str) -> (r: bool)
    ensures
        r == (w@ == pat@),
{
    *w == String::from_str(pat)
}

/// The index of the first substitution delimiter at or after `j`.
fn find_delim(ws: &Vec<String>, j: usize) -> (r: Option<usize>)
    requires
        j <= ws@.len(),
    ensures
        match r {
            Some(d) => j <= d < ws@.len() && first_delim(words_view(ws@).skip(j as int)) == d - j
                && (ws@[d as int]@ == "<("@ || ws@[d as int]@ == ")"@),
            None => first_delim(words_view(ws@).skip(j as int)) == -1,
        },
    decreases ws@.len() - j,
{
    let ghost tail = words_view(ws@).skip(j as int);
    if j == ws.len() {
        proof {
            assert(tail =~= Seq::<Seq<char>>::empty());
        }
        return None;
    }
    proof {
        assert(tail[0] == ws@[j as int]@);
        assert(tail.drop_first() =~= words_view(ws@).skip(j + 1));
    }
    if word_is(&ws[j], "<(") || word_is(&ws[j], ")") {
        return Some(j);
    }
    match find_delim(ws, j + 1) {
        Some(d) => Some(d),
        None => None,
    }
}

/// The words in `[j, end)` lifted one by one, for a substitution body.
fn lift_inner_exec(ws: &Vec<String>, j: usize, end: usize) -> (r: Vec<RawShellElement>)
    requires
        j <= end <= ws@.len(),
    ensures
        elems_view(r@) == lift_inner(words_view(ws@).subrange(j as int, end as int)),
    decreases end - j,
{
    let ghost body = words_view(ws@).subrange(j as int, end as int);
    if j == end {
        let r: Vec<RawShellElement> = Vec::new();
        proof {
            assert(body =~= Seq::<Seq<char>>::empty());
            assert(elems_view(r@) =~= lift_inner(body));
        }
        return r;
    }
    proof {
        assert(body[0] == ws@[j as int]@);
        assert(body.drop_first() =~= words_view(ws@).subrange(j + 1, end as int));
    }
    let e = word_to_elem(&ws[j]);
    let mut rest = lift_inner_exec(ws, j + 1, end);
    let ghost prev = rest@;
    rest.insert(0, e);
    proof {
        assert(rest@[0] == prev.insert(0, e)[0]);
        assert(rest@.drop_first() =~= prev);
        assert(elems_view(rest@) == seq![elem_view(rest@[0])] + elems_view(rest@.drop_first()));
        assert(elems_view(rest@) =~= lift_inner(body));
    }
    rest
}

/// The element one word denotes.
fn word_to_elem(w: &String) -> (r: RawShellElement)
    ensures
        elem_view(r) == word_elem(w@),
{
    if word_is(w, "<") {
        RawShellElement::Stdin
    } else if word_is(w, ">") {
        RawShellElement::Stdout
    } else if word_is(w, ">>") {
        RawShellElement::StdoutAppend
    } else if word_is(w, "2>") {
        RawShellElement::Stderr
    } else if word_is(w, "|") {
        RawShellElement::Pipe
    } else {
        RawShellElement::Str(w.clone())
    }
}

/// Lift the words from `i` on.
fn lift_exec(ws: &Vec<String>, i: usize) -> (r: Result<Vec<RawShellElement>, Error>)
    requires
        i <= ws@.len(),
    ensures
        match r {
            Ok(v) => lift_tokens(words_view(ws@).skip(i as int)) == Ok::<
                Seq<ShellElemView>,
                Error,
            >(elems_view(v@)),
            Err(e) => lift_tokens(words_view(ws@).skip(i as int)) == Err::<
                Seq<ShellElemView>,
                Error,
            >(e),
        },
    decreases ws@.len() - i,
{
    let ghost tail = words_view(ws@).skip(i as int);
    if i == ws.len() {
        let r: Vec<RawShellElement> = Vec::new();
        proof {
            assert(tail =~= Seq::<Seq<char>>::empty());
            assert(elems_view(r@) =~= Seq::<ShellElemView>::empty());
        }
        return Ok(r);
    }
    proof {
        assert(tail[0] == ws@[i as int]@);
        assert(tail.drop_first() =~= words_view(ws@).skip(i + 1));
    }
    if word_is(&ws[i], "<(") {
        let ghost rest = tail.drop_first();
        let d = match find_delim(ws, i + 1) {
            Some(d) => d,
            None => {
                return Err(Error::UnclosedParens);
            },
        };
        proof {
            assert(first_delim(rest) == d - (i + 1));
            assert(rest[d - (i + 1)] == ws@[d as int]@);
        }
        if word_is(&ws[d], "<(") {
            return Err(Error::BadStructure);
        }
        let inner = lift_inner_exec(ws, i + 1, d);
        proof {
            assert(rest.take(d - (i + 1)) =~= words_view(ws@).subrange(i + 1, d as int));
            assert(rest.skip(d - (i + 1) + 1) =~= words_view(ws@).skip(d + 1));
        }
        let mut v = match lift_exec(ws, d + 1) {
            Ok(v) => v,
            Err(e) => {
                return Err(e);
            },
        };
        let ghost prev = v@;
        v.insert(0, RawShellElement::Subcmd(SubCommand { elts: inner }));
        let ghost mid = v@;
        v.insert(0, RawShellElement::Stdin);
        proof {
            assert(mid.drop_first() =~= prev);
            assert(v@.drop_first() =~= mid);
            assert(elems_view(mid) == seq![elem_view(mid[0])] + elems_view(mid.drop_first()));
            assert(elems_view(v@) == seq![elem_view(v@[0])] + elems_view(v@.drop_first()));
            assert(elems_view(v@) =~= lift_tokens(tail)->Ok_0);
        }
        Ok(v)
    } else {
        let e = word_to_elem(&ws[i]);
        let mut v = match lift_exec(ws, i + 1) {
            Ok(v) => v,
            Err(err) => {
                return Err(err);
            },
        };
        let ghost prev = v@;
        v.insert(0, e);
        proof {
            assert(v@.drop_first() =~= prev);
            assert(elems_view(v@) == seq![elem_view(v@[0])] + elems_view(v@.drop_first()));
            assert(elems_view(v@) =~= lift_tokens(tail)->Ok_0);
        }
        Ok(v)
    }
}

impl SubCommand {
    /// A subcommand from its elements.
    pub fn new(elts: Vec<RawShellElement>) -> (r: SubCommand)
        ensures
            r.elts@ == elts@,
    {
        SubCommand { elts }
    }

    /// Append one element.
    pub fn push(&mut self, elt: RawShellElement)
        ensures
            final(self).elts@ == old(self).elts@.push(elt),
    {
        self.elts.push(elt);
    }
}

impl ShellSplit {
    /// A shell split from an element vector.
    pub fn from_vec(elts: Vec<RawShellElement>) -> (r: ShellSplit)
        ensures
            r.elts@ == elts@,
    {
        ShellSplit { elts }
    }

    /// Split a command line into words and lift them to shell
    /// elements.  Succeeds exactly when the quotes balance and every
    /// `<( … )` substitution is closed and unnested: parsing is total
    /// on such lines.
    pub fn new(cmd: &str) -> (r: Result<ShellSplit, Error>)
        ensures
            match r {
                Ok(sp) => shell_words_of(cmd@) matches Some(ws) && lift_tokens(ws) == Ok::<
                    Seq<ShellElemView>,
                    Error,
                >(elems_view(sp.elts@)),
                Err(e) => (e == Error::Quotes && shell_words_of(cmd@) is None) || (shell_words_of(
                    cmd@,
                ) matches Some(ws) && lift_tokens(ws) == Err::<Seq<ShellElemView>, Error>(e)),
            },
    {
        let ws = match split_words(cmd) {
            Ok(ws) => ws,
            Err(e) => {
                return Err(e);
            },
        };
        proof {
            assert(words_view(ws@).skip(0) =~= words_view(ws@));
        }
        match lift_exec(&ws, 0) {
            Ok(elts) => Ok(ShellSplit { elts }),
            Err(e) => Err(e),
        }
    }
}

} // verus!
