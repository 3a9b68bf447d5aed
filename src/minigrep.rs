use vstd::prelude::*;

verus! {

/// What a search run asks for: the text to find, the file to look in, and
/// whether case counts.
pub struct Config {
    pub query: String,
    pub filename: String,
    pub case_sensitive: bool,
}

impl Config {
    /// A configuration from the command line (the program's name first, then
    /// the query and the file name) and from whether the environment asks to
    /// ignore case.
    pub fn new(args: &Vec<String>, ignore_case: bool) -> (r: Result<Config, &'static str>)
        ensures
            args@.len() < 2 ==> r is Err,
            args@.len() == 2 ==> r is Err,
            args@.len() > 2 ==> r is Ok && r->Ok_0.query@ == args@[1]@ && r->Ok_0.filename@
                == args@[2]@ && r->Ok_0.case_sensitive == !ignore_case,
    {
        if args.len() < 2 {
            return Err("didn't give a query string");
        }
        if args.len() < 3 {
            return Err("didn't give a filename");
        }
        let query = args[1].clone();
        let filename = args[2].clone();
        Ok(Config { query, filename, case_sensitive: !ignore_case })
    }
}

/// Where the lines of a text stand after reading `s`: the lines ended so
/// far, and the line being read.
pub open spec fn line_state(s: Seq<char>) -> (Seq<Seq<char>>, Seq<char>)
    decreases s.len(),
{
    if s.len() == 0 {
        (Seq::empty(), Seq::empty())
    } else {
        let (done, cur) = line_state(s.drop_last());
        if s.last() == '\n' {
            (done.push(strip_cr(cur)), Seq::empty())
        } else {
            (done, cur.push(s.last()))
        }
    }
}

/// A line without the carriage return that ended it, if any.
pub open spec fn strip_cr(l: Seq<char>) -> Seq<char> {
    if l.len() > 0 && l.last() == '\r' {
        l.drop_last()
    } else {
        l
    }
}

/// The lines of a text: split after each `\n`, a `\r` before the `\n`
/// dropped, and no empty line after a final `\n`.
pub open spec fn lines(s: Seq<char>) -> Seq<Seq<char>> {
    let (done, cur) = line_state(s);
    if cur.len() > 0 {
        done.push(cur)
    } else {
        done
    }
}

/// Whether `n` occurs in `h`.
pub open spec fn contains(h: Seq<char>, n: Seq<char>) -> bool {
    exists|i: int| 0 <= i && i + n.len() <= h.len() && #[trigger] h.subrange(i, i + n.len()) == n
}

/// The entries of `ls` whose key in `keys` holds `q`, in order.
pub open spec fn selected(ls: Seq<Seq<char>>, keys: Seq<Seq<char>>, q: Seq<char>) -> Seq<Seq<char>>
    decreases ls.len(),
{
    if ls.len() == 0 {
        Seq::empty()
    } else {
        let rest = selected(ls.drop_last(), keys, q);
        if contains(keys[ls.len() - 1], q) {
            rest.push(ls.last())
        } else {
            rest
        }
    }
}

/// The lower-case form of a text, as `str::to_lowercase` gives it.
pub uninterp spec fn lower_of(s: Seq<char>) -> Seq<char>;

/// Relies on `str::to_lowercase`: the lower-case form depends on the text alone.
#[verifier::external_body]
fn lowercase(s: &str) -> (r: String)
    ensures
        r@ == lower_of(s@),
{
    s.to_lowercase()
}

/// Relies on `FromIterator<char> for String`: the string holds the characters in order.
#[verifier::external_body]
fn string_of(cs: &Vec<char>) -> (r: String)
    ensures
        r@ == cs@,
{
    cs.iter().collect()
}

/// The characters of a text.
pub(crate) fn chars_of(s: &str) -> (r: Vec<char>)
    ensures
        r@ == s@,
{
    let mut r: Vec<char> = Vec::new();
    for c in it: s.chars()
        invariant
            r@ == it.seq().subrange(0, it.index() as int),
    {
        r.push(c);
    }
    r
}

/// Whether `n` occurs in `h`.
pub fn holds(h: &Vec<char>, n: &Vec<char>) -> (r: bool)
    ensures
        r == contains(h@, n@),
{
    if n.len() > h.len() {
        return false;
    }
    if n.len() == 0 {
        assert(h@.subrange(0int, 0int + n@.len()) =~= n@);
        return true;
    }
    let hl = h.len();
    let last = hl - n.len();
    let mut i: usize = 0;
    while i <= last
        invariant
            n@.len() <= h@.len(),
            0 < n@.len(),
            hl == h@.len(),
            last == h@.len() - n@.len(),
            i <= last + 1,
            forall|k: int| 0 <= k < i ==> #[trigger] h@.subrange(k, k + n@.len()) != n@,
        decreases last + 1 - i,
    {
        let mut j: usize = 0;
        while j < n.len() && h[i + j] == n[j]
            invariant
                i <= last,
                hl == h@.len(),
                last == h@.len() - n@.len(),
                j <= n@.len(),
                forall|m: int| 0 <= m < j ==> h@[i + m] == n@[m],
            decreases n@.len() - j,
        {
            j = j + 1;
        }
        if j == n.len() {
            assert(h@.subrange(i as int, i + n@.len()) =~= n@);
            return true;
        }
        assert(h@.subrange(i as int, i + n@.len())[j as int] != n@[j as int]);
        i = i + 1;
    }
    assert forall|k: int| 0 <= k && k + n@.len() <= h@.len() implies #[trigger] h@.subrange(
        k,
        k + n@.len(),
    ) != n@ by {
        assert(k < i);
    }
    false
}

/// The lines of a text.
pub fn lines_of(contents: &str) -> (r: Vec<String>)
    ensures
        r@.map_values(|l: String| l@) == lines(contents@),
{
    let cs = chars_of(contents);
    let mut done: Vec<String> = Vec::new();
    let mut cur: Vec<char> = Vec::new();
    let mut i: usize = 0;
    while i < cs.len()
        invariant
            i <= cs@.len(),
            cs@ == contents@,
            line_state(cs@.subrange(0, i as int)) == (done@.map_values(|l: String| l@), cur@),
        decreases cs@.len() - i,
    {
        let ghost before = done@;
        assert(cs@.subrange(0, i as int + 1).drop_last() =~= cs@.subrange(0, i as int));
        if cs[i] == '\n' {
            if cur.len() > 0 && cur[cur.len() - 1] == '\r' {
                cur.pop();
            }
            done.push(string_of(&cur));
            cur = Vec::new();
            assert(done@.map_values(|l: String| l@) =~= before.map_values(|l: String| l@).push(
                strip_cr(line_state(cs@.subrange(0, i as int)).1),
            ));
        } else {
            cur.push(cs[i]);
        }
        i = i + 1;
    }
    assert(cs@.subrange(0, i as int) =~= cs@);
    if cur.len() > 0 {
        let ghost before = done@;
        done.push(string_of(&cur));
        assert(done@.map_values(|l: String| l@) =~= before.map_values(|l: String| l@).push(cur@));
    }
    done
}

/// The lines whose key holds `query`, in order: line `i` goes with key `i`.
pub fn select_matching(lines: &Vec<String>, keys: &Vec<String>, query: &str) -> (r: Vec<String>)
    requires
        lines@.len() == keys@.len(),
    ensures
        r@.map_values(|l: String| l@) == selected(
            lines@.map_values(|l: String| l@),
            keys@.map_values(|l: String| l@),
            query@,
        ),
{
    let ghost ls = lines@.map_values(|l: String| l@);
    let ghost ks = keys@.map_values(|l: String| l@);
    let q = chars_of(query);
    let mut r: Vec<String> = Vec::new();
    let mut i: usize = 0;
    while i < lines.len()
        invariant
            i <= lines@.len(),
            lines@.len() == keys@.len(),
            ls == lines@.map_values(|l: String| l@),
            ks == keys@.map_values(|l: String| l@),
            q@ == query@,
            r@.map_values(|l: String| l@) == selected(ls.subrange(0, i as int), ks, q@),
        decreases lines@.len() - i,
    {
        let ghost before = r@;
        assert(ls.subrange(0, i as int + 1).drop_last() =~= ls.subrange(0, i as int));
        let k = chars_of(keys[i].as_str());
        if holds(&k, &q) {
            r.push(lines[i].clone());
            assert(r@.map_values(|l: String| l@) =~= before.map_values(|l: String| l@).push(
                ls[i as int],
            ));
        }
        i = i + 1;
    }
    assert(ls.subrange(0, i as int) =~= ls);
    r
}

/// The lines of `contents` that hold `query`, in order.
pub fn search(query: &str, contents: &str) -> (r: Vec<String>)
    ensures
        r@.map_values(|l: String| l@) == selected(lines(contents@), lines(contents@), query@),
{
    let ls = lines_of(contents);
    select_matching(&ls, &ls, query)
}

/// The lines of `contents` that hold `query` when both are taken in lower
/// case, in order; the lines come back as they were.
pub fn search_case_insensitive(query: &str, contents: &str) -> (r: Vec<String>)
    ensures
        r@.map_values(|l: String| l@) == selected(
            lines(contents@),
            lines(contents@).map_values(|l: Seq<char>| lower_of(l)),
            lower_of(query@),
        ),
{
    let q = lowercase(query);
    let ls = lines_of(contents);
    let mut keys: Vec<String> = Vec::new();
    let mut i: usize = 0;
    while i < ls.len()
        invariant
            i <= ls@.len(),
            keys@.len() == i,
            forall|k: int| 0 <= k < i ==> (#[trigger] keys@[k])@ == lower_of(ls@[k]@),
        decreases ls@.len() - i,
    {
        keys.push(lowercase(ls[i].as_str()));
        i = i + 1;
    }
    assert(keys@.map_values(|l: String| l@) =~= lines(contents@).map_values(
        |l: Seq<char>| lower_of(l),
    ));
    select_matching(&ls, &keys, q.as_str())
}

} // verus!
