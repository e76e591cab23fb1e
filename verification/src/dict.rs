//! The value syntax of the command-line evaluator: Python-style dicts
//! `{k: v, k2: [v1, v2]}` whose values are numbers or bracketed lists of
//! numbers. Reading stops at the first error in the text's structure; the
//! numbers are kept as their (trimmed) texts.
use vstd::prelude::*;
use crate::cli::{is_white_space, lemma_trim_end_skip, lemma_trim_start_skip, trim, trim_end, trim_start, trim_str};

verus! {

/// The position of the first character of `s` that is `a` or `b`, if any.
pub open spec fn first_of(s: Seq<char>, a: char, b: char) -> Option<int>
    decreases s.len(),
{
    if s.len() == 0 {
        None
    } else if s[0] == a || s[0] == b {
        Some(0)
    } else {
        match first_of(s.drop_first(), a, b) {
            Some(i) => Some(i + 1),
            None => None,
        }
    }
}

proof fn lemma_first_of(s: Seq<char>, a: char, b: char, i: int)
    requires
        0 <= i <= s.len(),
        forall|j: int| 0 <= j < i ==> !(#[trigger] s[j] == a || s[j] == b),
        i == s.len() || s[i] == a || s[i] == b,
    ensures
        first_of(s, a, b) == (if i < s.len() { Some(i) } else { None::<int> }),
    decreases i,
{
    if i > 0 {
        let d = s.drop_first();
        assert(!(s[0] == a || s[0] == b));
        assert forall|j: int| 0 <= j < i - 1 implies !(#[trigger] d[j] == a || d[j] == b) by {
            assert(d[j] == s[j + 1]);
        }
        if i < s.len() {
            assert(d[i - 1] == s[i]);
        }
        lemma_first_of(d, a, b, i - 1);
    }
}

pub proof fn lemma_first_of_range(s: Seq<char>, a: char, b: char)
    ensures
        first_of(s, a, b) matches Some(i) ==> 0 <= i < s.len() && (s[i] == a || s[i] == b),
    decreases s.len(),
{
    if s.len() > 0 && !(s[0] == a || s[0] == b) {
        lemma_first_of_range(s.drop_first(), a, b);
        if let Some(i) = first_of(s.drop_first(), a, b) {
            assert(s.drop_first()[i] == s[i + 1]);
        }
    }
}

proof fn lemma_trim_start_len(s: Seq<char>)
    ensures
        trim_start(s).len() <= s.len(),
    decreases s.len(),
{
    if s.len() > 0 {
        lemma_trim_start_len(s.drop_first());
    }
}

proof fn lemma_trim_end_len(s: Seq<char>)
    ensures
        trim_end(s).len() <= s.len(),
    decreases s.len(),
{
    if s.len() > 0 {
        lemma_trim_end_len(s.drop_last());
    }
}

pub proof fn lemma_trim_lengths(s: Seq<char>)
    ensures
        trim_start(s).len() <= s.len(),
        trim_end(s).len() <= s.len(),
        trim(s).len() <= s.len(),
{
    lemma_trim_start_len(s);
    lemma_trim_end_len(s);
    lemma_trim_end_len(trim_start(s));
}

/// The pieces of `s` between its commas (one piece more than commas).
pub open spec fn split_commas(s: Seq<char>) -> Seq<Seq<char>>
    decreases s.len(),
{
    if s.len() == 0 {
        seq![Seq::empty()]
    } else {
        let r = split_commas(s.drop_last());
        if s.last() == ',' {
            r.push(Seq::empty())
        } else {
            r.update(r.len() - 1, r.last().push(s.last()))
        }
    }
}

/// The trimmed pieces that are not blank, in order.
pub open spec fn items(pieces: Seq<Seq<char>>) -> Seq<Seq<char>>
    decreases pieces.len(),
{
    if pieces.len() == 0 {
        Seq::empty()
    } else {
        let r = items(pieces.drop_last());
        if trim(pieces.last()).len() > 0 {
            r.push(trim(pieces.last()))
        } else {
            r
        }
    }
}

/// The model of a value as written.
pub enum RawView {
    Scalar(Seq<char>),
    Array(Seq<Seq<char>>),
}

/// A value as written: a number, or a bracketed list of numbers, each as
/// its trimmed text.
#[derive(Debug)]
pub enum RawValue {
    Scalar(String),
    Array(Vec<String>),
}

impl View for RawValue {
    type V = RawView;

    open spec fn view(&self) -> RawView {
        match self {
            RawValue::Scalar(t) => RawView::Scalar(t@),
            RawValue::Array(v) => RawView::Array(v@.map_values(|t: String| t@)),
        }
    }
}

/// A value at the start of `s` (after its leading white space), with the
/// number of characters it takes there: a list runs to the first `]`, a
/// number to the first `,` or `}` or to the end.
pub open spec fn spec_scan_value(s: Seq<char>) -> Result<(RawView, int), Seq<char>> {
    let t = trim_start(s);
    if t.len() > 0 && t[0] == '[' {
        match first_of(t, ']', ']') {
            None => Err("unclosed '[' in array value"@),
            Some(e) => Ok((RawView::Array(items(split_commas(trim(t.subrange(1, e))))), e + 1)),
        }
    } else {
        let e = match first_of(t, ',', '}') {
            Some(e) => e,
            None => t.len() as int,
        };
        Ok((RawView::Scalar(trim(t.subrange(0, e))), e))
    }
}

pub proof fn lemma_scan_value_len(s: Seq<char>)
    ensures
        spec_scan_value(s) matches Ok((_, k)) ==> 0 <= k <= trim_start(s).len(),
{
    let t = trim_start(s);
    lemma_first_of_range(t, ']', ']');
    lemma_first_of_range(t, ',', '}');
}

/// The text after one entry's value: trimmed, and past one comma.
pub open spec fn after_value(r2: Seq<char>, k: int) -> Seq<char> {
    let r3 = trim(r2.subrange(k, r2.len() as int));
    if r3.len() > 0 && r3[0] == ',' {
        trim(r3.subrange(1, r3.len() as int))
    } else {
        r3
    }
}

/// The entries of a dict's inside, in order, up to the first error of
/// structure, and that error: each entry is a key up to the first `:`,
/// then a value; entries are separated by an optional comma.
pub open spec fn scan_entries(rest: Seq<char>) -> (Seq<(Seq<char>, RawView)>, Option<Seq<char>>)
    decreases rest.len(),
{
    if rest.len() == 0 {
        (Seq::empty(), None)
    } else {
        match first_of(rest, ':', ':') {
            None => (Seq::empty(), Some("expected ':' after key in '"@ + rest + "'"@)),
            Some(c) => {
                let key = trim(rest.subrange(0, c));
                let r2 = trim(rest.subrange(c + 1, rest.len() as int));
                match spec_scan_value(r2) {
                    Err(e) => (Seq::empty(), Some(e)),
                    Ok((v, k)) => {
                        proof {
                            lemma_first_of_range(rest, ':', ':');
                            lemma_trim_lengths(rest.subrange(c + 1, rest.len() as int));
                            lemma_scan_value_len(r2);
                            lemma_trim_lengths(r2);
                            lemma_trim_lengths(r2.subrange(k, r2.len() as int));
                            let r3 = trim(r2.subrange(k, r2.len() as int));
                            if r3.len() > 0 {
                                lemma_trim_lengths(r3.subrange(1, r3.len() as int));
                            }
                        }
                        let (es, err) = scan_entries(after_value(r2, k));
                        (seq![(key, v)] + es, err)
                    },
                }
            },
        }
    }
}

/// What a dict reads to: its entries up to the first error of structure,
/// and that error. A dict is braces around entries, white space aside.
pub open spec fn spec_scan_dict(s: Seq<char>) -> (Seq<(Seq<char>, RawView)>, Option<Seq<char>>) {
    let t = trim(s);
    if t.len() >= 2 && t[0] == '{' && t[t.len() - 1] == '}' {
        scan_entries(trim(t.subrange(1, t.len() - 1)))
    } else {
        (Seq::empty(), Some("expected {key: value, ...}"@))
    }
}

/// The model of a dict's reading.
pub struct ScanView {
    pub entries: Seq<(Seq<char>, RawView)>,
    pub error: Option<Seq<char>>,
}

/// A dict's reading: the entries read, in order, up to the first error in
/// the text's structure, and that error, if any.
#[derive(Debug)]
pub struct DictScan {
    pub entries: Vec<(String, RawValue)>,
    pub error: Option<String>,
}

impl View for DictScan {
    type V = ScanView;

    open spec fn view(&self) -> ScanView {
        ScanView {
            entries: self.entries@.map_values(|e: (String, RawValue)| (e.0@, e.1@)),
            error: match self.error {
                Some(e) => Some(e@),
                None => None,
            },
        }
    }
}

/// The position of the first `a` or `b` in `s`, if any.
fn find_of(s: &str, a: char, b: char) -> (r: Option<usize>)
    ensures
        match first_of(s@, a, b) {
            Some(i) => r == Some(i as usize),
            None => r is None,
        },
{
    let n = s.unicode_len();
    let mut i: usize = 0;
    while i < n && s.get_char(i) != a && s.get_char(i) != b
        invariant
            i <= n,
            n == s@.len(),
            forall|j: int| 0 <= j < i ==> !(#[trigger] s@[j] == a || s@[j] == b),
        decreases n - i,
    {
        i = i + 1;
    }
    proof {
        lemma_first_of(s@, a, b, i as int);
    }
    if i < n {
        Some(i)
    } else {
        None
    }
}

/// The slice without its leading white space.
fn trim_start_str(s: &str) -> (r: &str)
    ensures
        r@ == trim_start(s@),
{
    let n = s.unicode_len();
    let mut i: usize = 0;
    while i < n && crate::cli::white_space(s.get_char(i))
        invariant
            i <= n,
            n == s@.len(),
            forall|j: int| 0 <= j < i ==> is_white_space(#[trigger] s@[j]),
        decreases n - i,
    {
        i = i + 1;
    }
    proof {
        lemma_trim_start_skip(s@, i as int);
        let t = s@.subrange(i as int, n as int);
        if i < n {
            assert(t[0] == s@[i as int]);
        }
        assert(trim_start(t) == t);
    }
    s.substring_char(i, n)
}

/// The non-blank pieces between the commas of `inner`, each trimmed.
fn array_items(inner: &str) -> (v: Vec<String>)
    ensures
        v@.map_values(|t: String| t@) == items(split_commas(inner@)),
{
    let n = inner.unicode_len();
    let ghost s = inner@;
    let ghost mut done: Seq<Seq<char>> = Seq::empty();
    let mut out: Vec<String> = Vec::new();
    let mut start: usize = 0;
    let mut i: usize = 0;
    proof {
        assert(s.take(0) =~= Seq::<char>::empty());
        assert(s.subrange(0, 0) =~= Seq::<char>::empty());
        assert(split_commas(s.take(0)) == done.push(s.subrange(0, 0)));
        assert(out@.map_values(|t: String| t@) =~= items(done));
    }
    while i < n
        invariant
            start <= i <= n,
            n == s.len(),
            s == inner@,
            split_commas(s.take(i as int)) == done.push(s.subrange(start as int, i as int)),
            out@.map_values(|t: String| t@) == items(done),
        decreases n - i,
    {
        proof {
            assert(s.take(i + 1).drop_last() =~= s.take(i as int));
            assert(s.take(i + 1).last() == s[i as int]);
        }
        if inner.get_char(i) == ',' {
            let piece = trim_str(inner.substring_char(start, i));
            let ghost cur = s.subrange(start as int, i as int);
            if piece.unicode_len() > 0 {
                out.push(String::from_str(piece));
            }
            proof {
                assert((done.push(cur)).drop_last() =~= done);
                assert(out@.map_values(|t: String| t@) =~= items(done.push(cur)));
                done = done.push(cur);
                assert(s.subrange(i + 1, i + 1) =~= Seq::<char>::empty());
            }
            start = i + 1;
        } else {
            proof {
                let cur = s.subrange(start as int, i as int);
                let r = done.push(cur);
                assert(cur.push(s[i as int]) =~= s.subrange(start as int, i + 1));
                assert(r.last() == cur);
                assert(r.update(r.len() - 1, r.last().push(s[i as int])) =~= done.push(
                    s.subrange(start as int, i + 1),
                ));
            }
        }
        i = i + 1;
    }
    let piece = trim_str(inner.substring_char(start, n));
    let ghost cur = s.subrange(start as int, n as int);
    if piece.unicode_len() > 0 {
        out.push(String::from_str(piece));
    }
    proof {
        assert(s.take(n as int) =~= s);
        assert((done.push(cur)).drop_last() =~= done);
        assert(out@.map_values(|t: String| t@) =~= items(done.push(cur)));
    }
    out
}

/// Reads a value at the start of `s` (after its leading white space): a
/// bracketed list of numbers or one number, as texts, with the number of
/// characters it takes after the white space.
pub fn scan_value(s: &str) -> (r: Result<(RawValue, usize), String>)
    ensures
        match spec_scan_value(s@) {
            Ok((v, k)) => r matches Ok(p) && p.0@ == v && p.1 == k,
            Err(e) => r matches Err(x) && x@ == e,
        },
{
    let t = trim_start_str(s);
    let n = t.unicode_len();
    if n > 0 && t.get_char(0) == '[' {
        match find_of(t, ']', ']') {
            None => Err(String::from_str("unclosed '[' in array value")),
            Some(e) => {
                proof {
                    lemma_first_of_range(t@, ']', ']');
                }
                let inner = trim_str(t.substring_char(1, e));
                let values = array_items(inner);
                Ok((RawValue::Array(values), e + 1))
            },
        }
    } else {
        let e = match find_of(t, ',', '}') {
            Some(e) => e,
            None => n,
        };
        proof {
            lemma_first_of_range(t@, ',', '}');
        }
        let text = trim_str(t.substring_char(0, e));
        Ok((RawValue::Scalar(String::from_str(text)), e))
    }
}

/// Reads a dict: its entries up to the first error in the text's
/// structure, and that error.
pub fn scan_dict(s: &str) -> (r: DictScan)
    ensures
        r@.entries == spec_scan_dict(s@).0,
        r@.error == spec_scan_dict(s@).1,
{
    let t = trim_str(s);
    let n = t.unicode_len();
    if !(n >= 2 && t.get_char(0) == '{' && t.get_char(n - 1) == '}') {
        return DictScan { entries: Vec::new(), error: Some(String::from_str("expected {key: value, ...}")) };
    }
    let mut rest = trim_str(t.substring_char(1, n - 1));
    let ghost whole = rest@;
    let mut entries: Vec<(String, RawValue)> = Vec::new();
    let ghost done: Seq<(Seq<char>, RawView)> = Seq::empty();
    proof {
        assert(entries@.map_values(|e: (String, RawValue)| (e.0@, e.1@)) =~= Seq::<(Seq<char>, RawView)>::empty());
        assert(Seq::<(Seq<char>, RawView)>::empty() + scan_entries(whole).0 =~= scan_entries(whole).0);
    }
    loop
        invariant
            whole == trim(t@.subrange(1, n - 1)),
            n == t@.len(),
            t@ == trim(s@),
            n >= 2 && t@[0] == '{' && t@[n - 1] == '}',
            entries@.map_values(|e: (String, RawValue)| (e.0@, e.1@)) + scan_entries(rest@).0
                == scan_entries(whole).0,
            scan_entries(rest@).1 == scan_entries(whole).1,
        decreases rest@.len(),
    {
        let m = rest.unicode_len();
        if m == 0 {
            proof {
                assert(entries@.map_values(|e: (String, RawValue)| (e.0@, e.1@)) + Seq::<(Seq<char>, RawView)>::empty()
                    =~= entries@.map_values(|e: (String, RawValue)| (e.0@, e.1@)));
            }
            return DictScan { entries, error: None };
        }
        let c = match find_of(rest, ':', ':') {
            None => {
                let mut msg = String::from_str("expected ':' after key in '");
                msg.append(rest);
                msg.append("'");
                proof {
                    assert(entries@.map_values(|e: (String, RawValue)| (e.0@, e.1@)) + Seq::<(Seq<char>, RawView)>::empty()
                        =~= entries@.map_values(|e: (String, RawValue)| (e.0@, e.1@)));
                }
                return DictScan { entries, error: Some(msg) };
            },
            Some(c) => c,
        };
        proof {
            lemma_first_of_range(rest@, ':', ':');
        }
        let key = trim_str(rest.substring_char(0, c));
        let r2 = trim_str(rest.substring_char(c + 1, m));
        match scan_value(r2) {
            Err(e) => {
                proof {
                    assert(entries@.map_values(|e: (String, RawValue)| (e.0@, e.1@)) + Seq::<(Seq<char>, RawView)>::empty()
                        =~= entries@.map_values(|e: (String, RawValue)| (e.0@, e.1@)));
                }
                return DictScan { entries, error: Some(e) };
            },
            Ok((v, k)) => {
                proof {
                    lemma_scan_value_len(r2@);
                    lemma_trim_lengths(r2@);
                }
                let ghost before = rest@;
                let ghost entry = (key@, v@);
                let r3 = trim_str(r2.substring_char(k, r2.unicode_len()));
                let next = if r3.unicode_len() > 0 && r3.get_char(0) == ',' {
                    trim_str(r3.substring_char(1, r3.unicode_len()))
                } else {
                    r3
                };
                proof {
                    assert(next@ == after_value(r2@, k as int));
                    assert(scan_entries(before).0 == seq![entry] + scan_entries(next@).0);
                    assert(scan_entries(before).1 == scan_entries(next@).1);
                    lemma_trim_lengths(rest@.subrange(c + 1, m as int));
                    lemma_trim_lengths(r2@.subrange(k as int, r2@.len() as int));
                    if r3@.len() > 0 {
                        lemma_trim_lengths(r3@.subrange(1, r3@.len() as int));
                    }
                }
                let ghost old_entries = entries@.map_values(|e: (String, RawValue)| (e.0@, e.1@));
                entries.push((String::from_str(key), v));
                proof {
                    assert(entries@.map_values(|e: (String, RawValue)| (e.0@, e.1@)) =~= old_entries.push(entry));
                    assert(old_entries.push(entry) + scan_entries(next@).0 =~= old_entries + (seq![entry]
                        + scan_entries(next@).0));
                }
                rest = next;
            },
        }
    }
}

/// The names joined with `", "`.
pub open spec fn join_names(names: Seq<Seq<char>>) -> Seq<char>
    decreases names.len(),
{
    if names.len() == 0 {
        Seq::empty()
    } else if names.len() == 1 {
        names[0]
    } else {
        join_names(names.drop_last()) + ", "@ + names.last()
    }
}

/// The message refusing values without a dict for several arguments.
pub open spec fn refusal_text(names: Seq<Seq<char>>) -> Seq<char> {
    "multiple variables ("@ + join_names(names) + ") require dict syntax: {x: ..., y: ...}"@
}

/// How a variable specification is read, given the expression's arguments.
#[derive(Debug)]
pub enum VarPlan {
    /// A dict of values by argument name.
    Dict,
    /// One value, for the single argument.
    Single,
    /// No argument to give a value to; `warn` when values were written anyway.
    Nothing { warn: bool },
    /// Several arguments and no dict: refused with this message.
    Refused(String),
}

/// Decides how a variable specification is read: a dict when it starts
/// with `{` (white space aside); otherwise one value when the expression
/// has one argument, nothing when it has none, and a refusal when it has
/// several.
pub fn plan_var(s: &str, names: &[String]) -> (p: VarPlan)
    ensures
        ({
            let t = trim(s@);
            let dict = t.len() > 0 && t[0] == '{';
            &&& dict ==> p is Dict
            &&& !dict && names@.len() == 1 ==> p is Single
            &&& !dict && names@.len() == 0 ==> (p matches VarPlan::Nothing { warn } && warn == (t.len() > 0))
            &&& !dict && names@.len() >= 2 ==> (p matches VarPlan::Refused(m) && m@ == refusal_text(
                names@.map_values(|n: String| n@),
            ))
        }),
{
    let t = trim_str(s);
    let n = t.unicode_len();
    if n > 0 && t.get_char(0) == '{' {
        VarPlan::Dict
    } else if names.len() == 1 {
        VarPlan::Single
    } else if names.len() == 0 {
        VarPlan::Nothing { warn: n > 0 }
    } else {
        let ghost views = names@.map_values(|x: String| x@);
        let mut joined = String::from_str(names[0].as_str());
        let mut i: usize = 1;
        proof {
            assert(views.take(1).drop_last() =~= Seq::<Seq<char>>::empty());
            assert(joined@ == join_names(views.take(1)));
        }
        while i < names.len()
            invariant
                1 <= i <= names@.len(),
                views == names@.map_values(|x: String| x@),
                joined@ == join_names(views.take(i as int)),
            decreases names@.len() - i,
        {
            proof {
                assert(views.take(i + 1).drop_last() =~= views.take(i as int));
                assert(views.take(i + 1).last() == names@[i as int]@);
            }
            joined.append(", ");
            joined.append(names[i].as_str());
            i = i + 1;
        }
        proof {
            assert(views.take(names@.len() as int) =~= views);
        }
        let mut msg = String::from_str("multiple variables (");
        msg.append(joined.as_str());
        msg.append(") require dict syntax: {x: ..., y: ...}");
        VarPlan::Refused(msg)
    }
}

/// The position of the first name equal to `key`, if any.
pub open spec fn name_position(names: Seq<Seq<char>>, key: Seq<char>) -> Option<int>
    decreases names.len(),
{
    if names.len() == 0 {
        None
    } else if names[0] == key {
        Some(0)
    } else {
        match name_position(names.drop_first(), key) {
            Some(i) => Some(i + 1),
            None => None,
        }
    }
}

/// The argument position of each key, in order, or the message for the
/// first key that names no argument.
pub open spec fn spec_resolve_keys(names: Seq<Seq<char>>, keys: Seq<Seq<char>>) -> Result<Seq<int>, Seq<char>>
    decreases keys.len(),
{
    if keys.len() == 0 {
        Ok(Seq::empty())
    } else {
        match spec_resolve_keys(names, keys.drop_last()) {
            Err(e) => Err(e),
            Ok(ps) => match name_position(names, keys.last()) {
                None => Err("unknown variable '"@ + keys.last() + "'"@),
                Some(p) => Ok(ps.push(p)),
            },
        }
    }
}

proof fn lemma_name_position(names: Seq<Seq<char>>, key: Seq<char>, i: int)
    requires
        0 <= i <= names.len(),
        forall|j: int| 0 <= j < i ==> #[trigger] names[j] != key,
        i == names.len() || names[i] == key,
    ensures
        name_position(names, key) == (if i < names.len() { Some(i) } else { None::<int> }),
    decreases i,
{
    if i > 0 {
        let d = names.drop_first();
        assert(names[0] != key);
        assert forall|j: int| 0 <= j < i - 1 implies #[trigger] d[j] != key by {
            assert(d[j] == names[j + 1]);
        }
        if i < names.len() {
            assert(d[i - 1] == names[i]);
        }
        lemma_name_position(d, key, i - 1);
    }
}

proof fn lemma_resolve_error(names: Seq<Seq<char>>, keys: Seq<Seq<char>>, k: int)
    requires
        0 <= k <= keys.len(),
        spec_resolve_keys(names, keys.take(k)) is Err,
    ensures
        spec_resolve_keys(names, keys) == spec_resolve_keys(names, keys.take(k)),
    decreases keys.len() - k,
{
    if k < keys.len() {
        assert(keys.take(k + 1).drop_last() =~= keys.take(k));
        lemma_resolve_error(names, keys, k + 1);
    } else {
        assert(keys.take(k) =~= keys);
    }
}

/// The argument position of each key of a dict, in order, or the message
/// for the first key that names no argument.
pub fn resolve_keys(names: &[String], keys: &Vec<String>) -> (r: Result<Vec<usize>, String>)
    ensures
        match spec_resolve_keys(names@.map_values(|n: String| n@), keys@.map_values(|k: String| k@)) {
            Ok(ps) => r matches Ok(v) && v@.len() == ps.len() && forall|j: int|
                0 <= j < ps.len() ==> #[trigger] v@[j] as int == ps[j],
            Err(e) => r matches Err(m) && m@ == e,
        },
{
    let ghost nv = names@.map_values(|n: String| n@);
    let ghost kv = keys@.map_values(|k: String| k@);
    let mut out: Vec<usize> = Vec::new();
    let mut i: usize = 0;
    proof {
        assert(kv.take(0) =~= Seq::<Seq<char>>::empty());
    }
    while i < keys.len()
        invariant
            i <= keys@.len(),
            nv == names@.map_values(|n: String| n@),
            kv == keys@.map_values(|k: String| k@),
            spec_resolve_keys(nv, kv.take(i as int)) matches Ok(ps) && out@.len() == ps.len() && forall|j: int|
                0 <= j < ps.len() ==> #[trigger] out@[j] as int == ps[j],
        decreases keys@.len() - i,
    {
        let ghost ps = spec_resolve_keys(nv, kv.take(i as int))->Ok_0;
        proof {
            assert(kv.take(i + 1).drop_last() =~= kv.take(i as int));
            assert(kv.take(i + 1).last() == keys@[i as int]@);
        }
        let mut p: usize = 0;
        while p < names.len() && names[p] != keys[i]
            invariant
                p <= names@.len(),
                i < keys@.len(),
                nv == names@.map_values(|n: String| n@),
                forall|j: int| 0 <= j < p ==> #[trigger] nv[j] != keys@[i as int]@,
            decreases names@.len() - p,
        {
            proof {
                assert(nv[p as int] == names@[p as int]@);
            }
            p = p + 1;
        }
        proof {
            if p < names@.len() {
                assert(nv[p as int] == names@[p as int]@);
            }
            lemma_name_position(nv, keys@[i as int]@, p as int);
        }
        if p == names.len() {
            let mut msg = String::from_str("unknown variable '");
            msg.append(keys[i].as_str());
            msg.append("'");
            proof {
                lemma_resolve_error(nv, kv, i + 1);
            }
            return Err(msg);
        }
        out.push(p);
        proof {
            assert forall|j: int| 0 <= j < ps.len() + 1 implies #[trigger] out@[j] as int == ps.push(p as int)[j] by {
                if j < ps.len() {
                    assert(out@[j] == out@.drop_last()[j]);
                }
            }
        }
        i = i + 1;
    }
    proof {
        assert(kv.take(keys@.len() as int) =~= kv);
    }
    Ok(out)
}

} // verus!
