use vstd::prelude::*;
use crate::bench::{BackendId, OutputFormat, ScenarioId};
use crate::text::{push_char, push_str, str_chars, str_to_string};

verus! {

/// An error of the benchmark runner, carrying its message.
#[derive(Debug, Clone)]
pub struct BenchmarkError {
    message: String,
}

impl View for BenchmarkError {
    type V = Seq<char>;

    closed spec fn view(&self) -> Seq<char> {
        self.message@
    }
}

impl BenchmarkError {
    pub fn new(message: String) -> (r: Self)
        ensures
            r@ == message@,
    {
        BenchmarkError { message }
    }

    /// The message, as the error is displayed.
    pub fn to_display_string(&self) -> (s: String)
        ensures
            s@ == self@,
    {
        str_to_string(self.message.as_str())
    }
}

/// Whether `c` has the Unicode `White_Space` property.
pub uninterp spec fn white_space(c: char) -> bool;

/// Calls `char::is_whitespace`, which reports the Unicode `White_Space`
/// property of `c`; the property itself is left to the name `white_space`.
#[verifier::external_body]
pub(crate) fn char_is_whitespace(c: char) -> (r: bool)
    ensures
        r == white_space(c),
{
    c.is_whitespace()
}

/// `s` without its leading white space.
pub open spec fn trim_start(s: Seq<char>) -> Seq<char>
    decreases s.len(),
{
    if s.len() > 0 && white_space(s[0]) {
        trim_start(s.drop_first())
    } else {
        s
    }
}

/// `s` without its trailing white space.
pub open spec fn trim_end(s: Seq<char>) -> Seq<char>
    decreases s.len(),
{
    if s.len() > 0 && white_space(s.last()) {
        trim_end(s.drop_last())
    } else {
        s
    }
}

/// `s` without leading and trailing white space.
pub open spec fn trimmed(s: Seq<char>) -> Seq<char> {
    trim_end(trim_start(s))
}

/// The pieces of `s` between the occurrences of `sep`, in order; there is
/// one piece more than there are occurrences.
pub open spec fn split_on(s: Seq<char>, sep: char) -> Seq<Seq<char>>
    decreases s.len(),
{
    if s.len() == 0 {
        seq![Seq::<char>::empty()]
    } else {
        let pieces = split_on(s.drop_last(), sep);
        if s.last() == sep {
            pieces.push(Seq::<char>::empty())
        } else {
            pieces.update(pieces.len() - 1, pieces.last().push(s.last()))
        }
    }
}

/// The comma-separated items of `value`, each trimmed.
pub open spec fn list_items(value: Seq<char>) -> Seq<Seq<char>> {
    split_on(value, ',').map_values(|t: Seq<char>| trimmed(t))
}

pub(crate) proof fn lemma_split_nonempty(s: Seq<char>, sep: char)
    ensures
        split_on(s, sep).len() >= 1,
    decreases s.len(),
{
    if s.len() > 0 {
        lemma_split_nonempty(s.drop_last(), sep);
    }
}

/// The views of a sequence of character vectors.
pub open spec fn char_views(v: Seq<Vec<char>>) -> Seq<Seq<char>> {
    v.map_values(|t: Vec<char>| t@)
}

pub(crate) fn split_chars(s: &Vec<char>, sep: char) -> (r: Vec<Vec<char>>)
    ensures
        char_views(r@) == split_on(s@, sep),
{
    let mut pieces: Vec<Vec<char>> = Vec::new();
    let mut current: Vec<char> = Vec::new();
    let mut i: usize = 0;
    proof {
        assert(s@.subrange(0, 0) =~= Seq::<char>::empty());
        assert(char_views(pieces@).push(current@) =~= seq![Seq::<char>::empty()]);
    }
    while i < s.len()
        invariant
            i <= s@.len(),
            char_views(pieces@).push(current@) == split_on(s@.subrange(0, i as int), sep),
        decreases s@.len() - i,
    {
        let c = s[i];
        let ghost prefix = s@.subrange(0, i as int);
        let ghost next = s@.subrange(0, i + 1);
        proof {
            assert(next.drop_last() =~= prefix);
            assert(next.last() == c);
            lemma_split_nonempty(prefix, sep);
        }
        if c == sep {
            pieces.push(current);
            current = Vec::new();
            proof {
                assert(char_views(pieces@).push(current@) =~= split_on(prefix, sep).push(Seq::<char>::empty()));
            }
        } else {
            let ghost before = current@;
            current.push(c);
            proof {
                let old_pieces = split_on(prefix, sep);
                assert(char_views(pieces@).push(current@) =~= old_pieces.update(
                    old_pieces.len() - 1,
                    old_pieces.last().push(c),
                ));
            }
        }
        i = i + 1;
    }
    pieces.push(current);
    proof {
        assert(s@.subrange(0, s@.len() as int) =~= s@);
        assert(char_views(pieces@) =~= split_on(s@, sep));
    }
    pieces
}

pub(crate) proof fn lemma_trim_start_skip(s: Seq<char>, k: int)
    requires
        0 <= k <= s.len(),
        forall|i: int| 0 <= i < k ==> white_space(#[trigger] s[i]),
    ensures
        trim_start(s) == trim_start(s.subrange(k, s.len() as int)),
    decreases k,
{
    if k > 0 {
        assert(s.drop_first().subrange(k - 1, s.len() - 1) =~= s.subrange(k, s.len() as int));
        lemma_trim_start_skip(s.drop_first(), k - 1);
    } else {
        assert(s.subrange(0, s.len() as int) =~= s);
    }
}

proof fn lemma_trim_end_skip(s: Seq<char>, k: int)
    requires
        0 <= k <= s.len(),
        forall|i: int| k <= i < s.len() ==> white_space(#[trigger] s[i]),
    ensures
        trim_end(s) == trim_end(s.subrange(0, k)),
    decreases s.len() - k,
{
    if k < s.len() {
        assert(s.drop_last().subrange(0, k) =~= s.subrange(0, k));
        lemma_trim_end_skip(s.drop_last(), k);
    } else {
        assert(s.subrange(0, s.len() as int) =~= s);
    }
}

fn trim_chars(s: &Vec<char>) -> (r: Vec<char>)
    ensures
        r@ == trimmed(s@),
{
    let n = s.len();
    let mut start: usize = 0;
    while start < n && char_is_whitespace(s[start])
        invariant
            start <= n == s@.len(),
            forall|i: int| 0 <= i < start ==> white_space(#[trigger] s@[i]),
        decreases n - start,
    {
        start = start + 1;
    }
    let mut end: usize = n;
    while end > start && char_is_whitespace(s[end - 1])
        invariant
            start <= end <= n == s@.len(),
            forall|i: int| end <= i < n ==> white_space(#[trigger] s@[i]),
        decreases end - start,
    {
        end = end - 1;
    }
    let mut r: Vec<char> = Vec::new();
    let mut i = start;
    while i < end
        invariant
            start <= i <= end <= n == s@.len(),
            r@ == s@.subrange(start as int, i as int),
        decreases end - i,
    {
        r.push(s[i]);
        i = i + 1;
        proof {
            assert(r@ =~= s@.subrange(start as int, i as int));
        }
    }
    proof {
        lemma_trim_start_skip(s@, start as int);
        let tail = s@.subrange(start as int, n as int);
        if start < n {
            assert(tail[0] == s@[start as int]);
            assert(!white_space(tail[0]));
        }
        assert(trim_start(s@) == tail);
        assert forall|i: int| end - start <= i < tail.len() implies white_space(#[trigger] tail[i]) by {
            assert(tail[i] == s@[start + i]);
        }
        lemma_trim_end_skip(tail, end - start);
        let kept = tail.subrange(0, end - start);
        assert(kept =~= s@.subrange(start as int, end as int));
        if end > start {
            assert(kept.last() == s@[end - 1]);
            assert(!white_space(kept.last()));
        }
        assert(trim_end(kept) == kept);
    }
    r
}

fn list_tokens(value: &str) -> (r: Vec<Vec<char>>)
    ensures
        char_views(r@) == list_items(value@),
{
    let chars = str_chars(value);
    let pieces = split_chars(&chars, ',');
    let mut tokens: Vec<Vec<char>> = Vec::new();
    let mut i: usize = 0;
    while i < pieces.len()
        invariant
            i <= pieces@.len(),
            char_views(pieces@) == split_on(value@, ','),
            tokens@.len() == i,
            forall|k: int| 0 <= k < i ==> (#[trigger] tokens@[k])@ == trimmed(pieces@[k]@),
        decreases pieces@.len() - i,
    {
        let t = trim_chars(&pieces[i]);
        tokens.push(t);
        i = i + 1;
    }
    proof {
        assert forall|k: int| 0 <= k < pieces@.len() implies char_views(pieces@)[k] == pieces@[k]@ by {}
        assert(char_views(tokens@) =~= list_items(value@));
    }
    tokens
}

pub(crate) fn chars_equal(a: &Vec<char>, s: &str) -> (r: bool)
    ensures
        r == (a@ == s@),
{
    let b = str_chars(s);
    if a.len() != b.len() {
        return false;
    }
    let mut i: usize = 0;
    while i < a.len()
        invariant
            i <= a@.len() == b@.len(),
            b@ == s@,
            a@.subrange(0, i as int) == b@.subrange(0, i as int),
        decreases a@.len() - i,
    {
        if a[i] != b[i] {
            return false;
        }
        i = i + 1;
        proof {
            assert(a@.subrange(0, i as int) =~= b@.subrange(0, i as int));
        }
    }
    proof {
        assert(a@ =~= a@.subrange(0, a@.len() as int));
        assert(b@ =~= b@.subrange(0, b@.len() as int));
    }
    true
}

/// The message for an item that names nothing of the given kind.
pub open spec fn unknown_message(kind: Seq<char>, item: Seq<char>) -> Seq<char> {
    "unknown "@ + kind + " `"@ + item + "`"@
}

fn unknown_error(kind: &str, item: &Vec<char>) -> (e: BenchmarkError)
    ensures
        e@ == unknown_message(kind@, item@),
{
    let mut message = str_to_string("unknown ");
    push_str(&mut message, kind);
    push_str(&mut message, " `");
    let ghost head = message@;
    let mut i: usize = 0;
    while i < item.len()
        invariant
            i <= item@.len(),
            message@ == head + item@.subrange(0, i as int),
        decreases item@.len() - i,
    {
        push_char(&mut message, item[i]);
        i = i + 1;
        proof {
            assert(message@ =~= head + item@.subrange(0, i as int));
        }
    }
    push_str(&mut message, "`");
    proof {
        assert(item@.subrange(0, item@.len() as int) =~= item@);
        assert(message@ =~= unknown_message(kind@, item@));
    }
    BenchmarkError::new(message)
}

/// The backend an item names, if any.
pub open spec fn backend_named(item: Seq<char>) -> Option<BackendId> {
    if item == "flow"@ {
        Some(BackendId::Flow)
    } else if item == "threadpool"@ {
        Some(BackendId::ThreadPool)
    } else if item == "rayon"@ {
        Some(BackendId::Rayon)
    } else if item == "cpp-taskflow"@ {
        Some(BackendId::CppTaskflow)
    } else {
        None
    }
}

/// The scenario an item names, if any.
pub open spec fn scenario_named(item: Seq<char>) -> Option<ScenarioId> {
    if item == "transform"@ {
        Some(ScenarioId::Transform)
    } else if item == "reduce"@ {
        Some(ScenarioId::Reduce)
    } else if item == "find"@ {
        Some(ScenarioId::Find)
    } else if item == "inclusive-scan"@ {
        Some(ScenarioId::InclusiveScan)
    } else if item == "sort"@ {
        Some(ScenarioId::Sort)
    } else {
        None
    }
}

fn backend_of(item: &Vec<char>) -> (r: Option<BackendId>)
    ensures
        r == backend_named(item@),
{
    if chars_equal(item, "flow") {
        Some(BackendId::Flow)
    } else if chars_equal(item, "threadpool") {
        Some(BackendId::ThreadPool)
    } else if chars_equal(item, "rayon") {
        Some(BackendId::Rayon)
    } else if chars_equal(item, "cpp-taskflow") {
        Some(BackendId::CppTaskflow)
    } else {
        None
    }
}

fn scenario_of(item: &Vec<char>) -> (r: Option<ScenarioId>)
    ensures
        r == scenario_named(item@),
{
    if chars_equal(item, "transform") {
        Some(ScenarioId::Transform)
    } else if chars_equal(item, "reduce") {
        Some(ScenarioId::Reduce)
    } else if chars_equal(item, "find") {
        Some(ScenarioId::Find)
    } else if chars_equal(item, "inclusive-scan") {
        Some(ScenarioId::InclusiveScan)
    } else if chars_equal(item, "sort") {
        Some(ScenarioId::Sort)
    } else {
        None
    }
}

impl BackendId {
    /// The backends named by the comma-separated list `value`; the first
    /// item (trimmed) that names no backend is reported.
    pub fn parse_list(value: &str) -> (r: Result<Vec<BackendId>, BenchmarkError>)
        ensures
            ({
                let items = list_items(value@);
                match r {
                    Ok(v) => v@.len() == items.len() && forall|k: int|
                        0 <= k < items.len() ==> backend_named(#[trigger] items[k]) == Some(v@[k]),
                    Err(e) => exists|k: int|
                        0 <= k < items.len() && (forall|j: int| 0 <= j < k ==> #[trigger] backend_named(items[j]) is Some)
                            && #[trigger] backend_named(items[k]) is None && e@ == unknown_message(
                            "backend"@,
                            items[k],
                        ),
                }
            }),
            r is Ok <==> forall|k: int| 0 <= k < list_items(value@).len() ==> #[trigger] backend_named(list_items(value@)[k]) is Some,
    {
        let tokens = list_tokens(value);
        let ghost items = list_items(value@);
        let mut result: Vec<BackendId> = Vec::new();
        let mut i: usize = 0;
        while i < tokens.len()
            invariant
                i <= tokens@.len(),
                char_views(tokens@) == items,
                items == list_items(value@),
                result@.len() == i,
                forall|k: int| 0 <= k < i ==> backend_named(#[trigger] items[k]) == Some(result@[k]),
            decreases tokens@.len() - i,
        {
            proof {
                assert(char_views(tokens@)[i as int] == tokens@[i as int]@);
            }
            match backend_of(&tokens[i]) {
                Some(b) => result.push(b),
                None => {
                    let e = unknown_error("backend", &tokens[i]);
                    proof {
                        assert(backend_named(items[i as int]) is None);
                        assert forall|j: int| 0 <= j < i implies #[trigger] backend_named(items[j]) is Some by {
                            assert(backend_named(items[j]) == Some(result@[j]));
                        }
                    }
                    return Err(e);
                }
            }
            i = i + 1;
        }
        Ok(result)
    }
}

impl ScenarioId {
    /// The scenarios named by the comma-separated list `value`; the first
    /// item (trimmed) that names no scenario is reported.
    pub fn parse_list(value: &str) -> (r: Result<Vec<ScenarioId>, BenchmarkError>)
        ensures
            ({
                let items = list_items(value@);
                match r {
                    Ok(v) => v@.len() == items.len() && forall|k: int|
                        0 <= k < items.len() ==> scenario_named(#[trigger] items[k]) == Some(v@[k]),
                    Err(e) => exists|k: int|
                        0 <= k < items.len() && (forall|j: int| 0 <= j < k ==> #[trigger] scenario_named(items[j]) is Some)
                            && #[trigger] scenario_named(items[k]) is None && e@ == unknown_message(
                            "scenario"@,
                            items[k],
                        ),
                }
            }),
            r is Ok <==> forall|k: int| 0 <= k < list_items(value@).len() ==> #[trigger] scenario_named(list_items(value@)[k]) is Some,
    {
        let tokens = list_tokens(value);
        let ghost items = list_items(value@);
        let mut result: Vec<ScenarioId> = Vec::new();
        let mut i: usize = 0;
        while i < tokens.len()
            invariant
                i <= tokens@.len(),
                char_views(tokens@) == items,
                items == list_items(value@),
                result@.len() == i,
                forall|k: int| 0 <= k < i ==> scenario_named(#[trigger] items[k]) == Some(result@[k]),
            decreases tokens@.len() - i,
        {
            proof {
                assert(char_views(tokens@)[i as int] == tokens@[i as int]@);
            }
            match scenario_of(&tokens[i]) {
                Some(s) => result.push(s),
                None => {
                    let e = unknown_error("scenario", &tokens[i]);
                    proof {
                        assert(scenario_named(items[i as int]) is None);
                        assert forall|j: int| 0 <= j < i implies #[trigger] scenario_named(items[j]) is Some by {
                            assert(scenario_named(items[j]) == Some(result@[j]));
                        }
                    }
                    return Err(e);
                }
            }
            i = i + 1;
        }
        Ok(result)
    }
}


/// The output format a command-line value names, if any.
pub open spec fn format_named(value: Seq<char>) -> Option<OutputFormat> {
    if value == "json"@ {
        Some(OutputFormat::Json)
    } else if value == "table"@ {
        Some(OutputFormat::Table)
    } else {
        None
    }
}

impl OutputFormat {
    /// The output format named by `value`, taken as it stands.
    pub fn parse(value: &str) -> (r: Result<OutputFormat, BenchmarkError>)
        ensures
            match r {
                Ok(f) => format_named(value@) == Some(f),
                Err(e) => format_named(value@) is None && e@ == unknown_message("output format"@, value@),
            },
    {
        let chars = str_chars(value);
        if chars_equal(&chars, "json") {
            Ok(OutputFormat::Json)
        } else if chars_equal(&chars, "table") {
            Ok(OutputFormat::Table)
        } else {
            Err(unknown_error("output format", &chars))
        }
    }
}

/// The usage text of the benchmark runner.
pub open spec fn help_lines() -> Seq<char> {
    "Usage: cargo run -p benchmarks -- [options]\n  --backends flow,threadpool,rayon,cpp-taskflow\n  --scenarios transform,reduce,find,inclusive-scan,sort\n  --input-len <usize>\n  --workers <usize>\n  --chunk-size <usize>\n  --warmups <usize>\n  --iterations <usize>\n  --seed <u64>\n  --format table|json"@
}

pub fn help_text() -> (r: String)
    ensures
        r@ == help_lines(),
{
    str_to_string(
        "Usage: cargo run -p benchmarks -- [options]\n  --backends flow,threadpool,rayon,cpp-taskflow\n  --scenarios transform,reduce,find,inclusive-scan,sort\n  --input-len <usize>\n  --workers <usize>\n  --chunk-size <usize>\n  --warmups <usize>\n  --iterations <usize>\n  --seed <u64>\n  --format table|json",
    )
}

} // verus!
