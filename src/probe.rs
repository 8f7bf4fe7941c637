use vstd::std_specs::iter::IteratorSpec;
use vstd::prelude::*;

verus! {

/// Why a condition check gave no answer.
#[derive(Debug, Clone, Copy, PartialEq, Eq, Structural)]
pub enum ProbeError {
    /// The listing command could not be run, or its output has an unexpected shape.
    CommandError,
    /// The requested interface is absent from the listing.
    InterfaceNotFound,
}

/// The characters that `char::is_whitespace` accepts (Unicode `White_Space`).
pub open spec fn is_white_spec(c: char) -> bool {
    let u = c as u32;
    (0x09 <= u && u <= 0x0d) || u == 0x20 || u == 0x85 || u == 0xa0 || u == 0x1680 || (0x2000 <= u
        && u <= 0x200a) || u == 0x2028 || u == 0x2029 || u == 0x202f || u == 0x205f || u == 0x3000
}

pub fn is_white(c: char) -> (r: bool)
    ensures
        r == is_white_spec(c),
{
    let u = c as u32;
    (0x09 <= u && u <= 0x0d) || u == 0x20 || u == 0x85 || u == 0xa0 || u == 0x1680 || (0x2000 <= u
        && u <= 0x200a) || u == 0x2028 || u == 0x2029 || u == 0x202f || u == 0x205f || u == 0x3000
}

/// `s` without its leading whitespace.
pub open spec fn trim_start(s: Seq<char>) -> Seq<char>
    decreases s.len(),
{
    if s.len() > 0 && is_white_spec(s[0]) {
        trim_start(s.drop_first())
    } else {
        s
    }
}

/// `s` without its trailing whitespace.
pub open spec fn trim_end(s: Seq<char>) -> Seq<char>
    decreases s.len(),
{
    if s.len() > 0 && is_white_spec(s.last()) {
        trim_end(s.drop_last())
    } else {
        s
    }
}

/// `s` without whitespace at either end, as `str::trim` gives it.
pub open spec fn trim(s: Seq<char>) -> Seq<char> {
    trim_end(trim_start(s))
}

/// Position of the first `": "` in `s` at or after `j`, or -1.
pub open spec fn sep_from(s: Seq<char>, j: int) -> int
    decreases s.len() - j,
{
    if j < 0 || j + 1 >= s.len() {
        -1
    } else if s[j] == ':' && s[j + 1] == ' ' {
        j
    } else {
        sep_from(s, j + 1)
    }
}

/// `s` split around its first `": "`, as `str::split_once(": ")` gives it.
pub open spec fn split_once(s: Seq<char>) -> Option<(Seq<char>, Seq<char>)> {
    let j = sep_from(s, 0);
    if j < 0 {
        None
    } else {
        Some((s.take(j), s.skip(j + 2)))
    }
}

/// A line ended by `"\r\n"` loses its carriage return.
pub open spec fn strip_cr(line: Seq<char>) -> Seq<char> {
    if line.len() > 0 && line.last() == '\r' {
        line.drop_last()
    } else {
        line
    }
}

/// The lines ended by a newline so far, and the text after the last newline.
pub open spec fn split_lines_acc(s: Seq<char>) -> (Seq<Seq<char>>, Seq<char>)
    decreases s.len(),
{
    if s.len() == 0 {
        (seq![], seq![])
    } else {
        let (done, partial) = split_lines_acc(s.drop_last());
        if s.last() == '\n' {
            (done.push(strip_cr(partial)), seq![])
        } else {
            (done, partial.push(s.last()))
        }
    }
}

/// The lines of `s`, as `str::lines` gives them: a final line needs no newline,
/// and an empty text after the last newline is no line.
pub open spec fn lines(s: Seq<char>) -> Seq<Seq<char>> {
    let (done, partial) = split_lines_acc(s);
    if partial.len() > 0 {
        done.push(partial)
    } else {
        done
    }
}

pub open spec fn status_key() -> Seq<char> {
    seq!['s', 't', 'a', 't', 'u', 's']
}

pub open spec fn active_value() -> Seq<char> {
    seq!['a', 'c', 't', 'i', 'v', 'e']
}

/// Where a scan of the listing stands after some lines.
pub struct ScanState {
    /// No malformed header line was met.
    pub ok: bool,
    /// The interface whose attribute lines are being read, if any.
    pub current: Option<Seq<char>>,
    /// Interface name to active flag, for each status line read.
    pub states: Map<Seq<char>, bool>,
}

pub open spec fn scan_start() -> ScanState {
    ScanState { ok: true, current: None, states: Map::empty() }
}

/// A line that starts with whitespace: an attribute line.
pub open spec fn is_indented(line: Seq<char>) -> bool {
    line.len() > 0 && is_white_spec(line[0])
}

/// One line of the listing. An unindented line opens the record of the interface
/// named before its first `": "` (a header without one is malformed). An indented
/// line of an open record that reads `status: <v>` once trimmed sets the flag of
/// that interface to `v == "active"` and closes the record. Other lines change
/// nothing.
pub open spec fn scan_line(st: ScanState, line: Seq<char>) -> ScanState {
    if !st.ok {
        st
    } else if !is_indented(line) {
        match split_once(line) {
            None => ScanState { ok: false, ..st },
            Some((name, _)) => ScanState { current: Some(name), ..st },
        }
    } else {
        match st.current {
            None => st,
            Some(name) => match split_once(trim(line)) {
                Some((k, v)) => if k == status_key() {
                    ScanState {
                        current: None,
                        states: st.states.insert(name, v == active_value()),
                        ..st
                    }
                } else {
                    st
                },
                None => st,
            },
        }
    }
}

pub open spec fn scan_lines(ls: Seq<Seq<char>>) -> ScanState
    decreases ls.len(),
{
    if ls.len() == 0 {
        scan_start()
    } else {
        scan_line(scan_lines(ls.drop_last()), ls.last())
    }
}

/// The interface states that a listing gives, or `None` where a header line is
/// malformed.
pub open spec fn parse_spec(output: Seq<char>) -> Option<Map<Seq<char>, bool>> {
    let st = scan_lines(lines(output));
    if st.ok {
        Some(st.states)
    } else {
        None
    }
}

/// The scan of `ls` from state `st`.
pub open spec fn scan_from(st: ScanState, ls: Seq<Seq<char>>) -> ScanState
    decreases ls.len(),
{
    if ls.len() == 0 {
        st
    } else {
        scan_line(scan_from(st, ls.drop_last()), ls.last())
    }
}

proof fn lemma_scan_from_start(ls: Seq<Seq<char>>)
    ensures
        scan_lines(ls) == scan_from(scan_start(), ls),
    decreases ls.len(),
{
    if ls.len() > 0 {
        lemma_scan_from_start(ls.drop_last());
    }
}

proof fn lemma_scan_from_append(st: ScanState, a: Seq<Seq<char>>, b: Seq<Seq<char>>)
    ensures
        scan_from(st, a + b) == scan_from(scan_from(st, a), b),
    decreases b.len(),
{
    if b.len() == 0 {
        assert(a + b =~= a);
    } else {
        assert((a + b).drop_last() =~= a + b.drop_last());
        lemma_scan_from_append(st, a, b.drop_last());
    }
}

/// Indented lines met before any header line belong to no interface: the
/// listing reads as if they were not there.
pub proof fn attribute_before_header_is_ignored(attrs: Seq<Seq<char>>, rest: Seq<Seq<char>>)
    requires
        forall|i: int| 0 <= i < attrs.len() ==> #[trigger] is_indented(attrs[i]),
    ensures
        scan_lines(attrs + rest) == scan_lines(rest),
{
    lemma_scan_from_start(attrs + rest);
    lemma_scan_from_start(rest);
    lemma_scan_from_append(scan_start(), attrs, rest);
    closed_record_ignores_attributes(scan_start(), attrs);
}

/// Once a status line has closed a record, indented lines change nothing until
/// the next header line.
pub proof fn closed_record_ignores_attributes(
    st: ScanState,
    attrs: Seq<Seq<char>>,
)
    requires
        st.current is None,
        forall|i: int| 0 <= i < attrs.len() ==> #[trigger] is_indented(attrs[i]),
    ensures
        scan_from(st, attrs) == st,
    decreases attrs.len(),
{
    if attrs.len() > 0 {
        let front = attrs.drop_last();
        assert forall|i: int| 0 <= i < front.len() implies #[trigger] is_indented(front[i]) by {
            assert(front[i] == attrs[i]);
        }
        closed_record_ignores_attributes(st, front);
        assert(is_indented(attrs[attrs.len() - 1]));
    }
}

/// An unindented line with a `": "`: it opens the record of the name before it.
pub open spec fn is_header(line: Seq<char>) -> bool {
    !is_indented(line) && split_once(line) is Some
}

pub open spec fn header_name(line: Seq<char>) -> Seq<char> {
    split_once(line)->Some_0.0
}

/// An indented line that reads `status: <v>` once trimmed.
pub open spec fn is_status_line(line: Seq<char>) -> bool {
    is_indented(line) && split_once(trim(line)) is Some && split_once(trim(line))->Some_0.0
        == status_key()
}

pub open spec fn status_active(line: Seq<char>) -> bool {
    split_once(trim(line))->Some_0.1 == active_value()
}

/// One record: a header line followed by indented lines only.
pub open spec fn is_record(rec: Seq<Seq<char>>) -> bool {
    &&& rec.len() > 0
    &&& is_header(rec[0])
    &&& forall|i: int| 1 <= i < rec.len() ==> #[trigger] is_indented(rec[i])
}

/// The flag that the first status line among `attrs` gives, if there is one.
pub open spec fn first_status(attrs: Seq<Seq<char>>) -> Option<bool>
    decreases attrs.len(),
{
    if attrs.len() == 0 {
        None
    } else {
        match first_status(attrs.drop_last()) {
            Some(v) => Some(v),
            None => if is_status_line(attrs.last()) {
                Some(status_active(attrs.last()))
            } else {
                None
            },
        }
    }
}

/// The interface states after reading the record `rec` over `states`.
pub open spec fn record_states(states: Map<Seq<char>, bool>, rec: Seq<Seq<char>>) -> Map<
    Seq<char>,
    bool,
> {
    match first_status(rec.drop_first()) {
        None => states,
        Some(v) => states.insert(header_name(rec[0]), v),
    }
}

proof fn lemma_attributes(st: ScanState, name: Seq<char>, attrs: Seq<Seq<char>>)
    requires
        st.ok,
        st.current == Some(name),
        forall|i: int| 0 <= i < attrs.len() ==> #[trigger] is_indented(attrs[i]),
    ensures
        scan_from(st, attrs) == match first_status(attrs) {
            None => st,
            Some(v) => ScanState { ok: true, current: None, states: st.states.insert(name, v) },
        },
    decreases attrs.len(),
{
    if attrs.len() > 0 {
        let front = attrs.drop_last();
        assert forall|i: int| 0 <= i < front.len() implies #[trigger] is_indented(front[i]) by {
            assert(front[i] == attrs[i]);
        }
        lemma_attributes(st, name, front);
        assert(is_indented(attrs[attrs.len() - 1]));
    }
}

proof fn lemma_record(st: ScanState, rec: Seq<Seq<char>>)
    requires
        st.ok,
        is_record(rec),
    ensures
        scan_from(st, rec).ok,
        scan_from(st, rec).states == record_states(st.states, rec),
{
    let one = seq![rec[0]];
    let attrs = rec.drop_first();
    assert(rec =~= one + attrs);
    lemma_scan_from_append(st, one, attrs);
    assert(one.drop_last() =~= Seq::<Seq<char>>::empty());
    assert(one.last() == rec[0]);
    assert(scan_from(st, one.drop_last()) == st);
    let st1 = scan_from(st, one);
    assert(st1 == scan_line(st, rec[0]));
    assert forall|i: int| 0 <= i < attrs.len() implies #[trigger] is_indented(attrs[i]) by {
        assert(attrs[i] == rec[i + 1]);
    }
    lemma_attributes(st1, header_name(rec[0]), attrs);
}

/// Two records of distinct interfaces read the same in either order: the scan
/// stays readable and gives the same interface states.
pub proof fn record_order_is_irrelevant(st: ScanState, r1: Seq<Seq<char>>, r2: Seq<Seq<char>>)
    requires
        st.ok,
        is_record(r1),
        is_record(r2),
        header_name(r1[0]) != header_name(r2[0]),
    ensures
        scan_from(st, r1 + r2).ok,
        scan_from(st, r2 + r1).ok,
        scan_from(st, r1 + r2).states == scan_from(st, r2 + r1).states,
{
    lemma_scan_from_append(st, r1, r2);
    lemma_scan_from_append(st, r2, r1);
    lemma_record(st, r1);
    lemma_record(st, r2);
    let a = scan_from(st, r1);
    let b = scan_from(st, r2);
    lemma_record(a, r2);
    lemma_record(b, r1);
    assert(record_states(record_states(st.states, r1), r2) =~= record_states(
        record_states(st.states, r2),
        r1,
    ));
}

/// The map from entries, a later entry of a name overriding an earlier one.
pub open spec fn log_map(es: Seq<(Vec<char>, bool)>) -> Map<Seq<char>, bool>
    decreases es.len(),
{
    if es.len() == 0 {
        Map::empty()
    } else {
        log_map(es.drop_last()).insert(es.last().0@, es.last().1)
    }
}

/// Network interface name to whether it is active.
pub struct InterfaceStates {
    entries: Vec<(Vec<char>, bool)>,
}

impl View for InterfaceStates {
    type V = Map<Seq<char>, bool>;

    closed spec fn view(&self) -> Map<Seq<char>, bool> {
        log_map(self.entries@)
    }
}

fn chars_eq(a: &Vec<char>, b: &Vec<char>) -> (r: bool)
    ensures
        r == (a@ == b@),
{
    if a.len() != b.len() {
        return false;
    }
    let mut i: usize = 0;
    while i < a.len()
        invariant
            a.len() == b.len(),
            i <= a.len(),
            forall|k: int| 0 <= k < i ==> a@[k] == b@[k],
        decreases a.len() - i,
    {
        if a[i] != b[i] {
            return false;
        }
        i = i + 1;
    }
    assert(a@ =~= b@);
    true
}

/// The characters of `s`, in order.
pub fn chars_of(s: &str) -> (r: Vec<char>)
    ensures
        r@ == s@,
{
    broadcast use vstd::string::group_string_axioms;

    let mut it = s.chars();
    let mut r: Vec<char> = Vec::new();
    loop
        invariant
            it.obeys_prophetic_iter_laws(),
            it.decrease() is Some,
            r@ + it.remaining() == s@,
        ensures
            r@ == s@,
        decreases it.decrease()->0,
    {
        match it.next() {
            Some(c) => {
                r.push(c);
            },
            None => {
                assert(r@ + it.remaining() =~= r@);
                break;
            },
        }
    }
    r
}

impl InterfaceStates {
    pub fn new() -> (r: InterfaceStates)
        ensures
            r@ == Map::<Seq<char>, bool>::empty(),
    {
        InterfaceStates { entries: Vec::new() }
    }

    pub fn insert(&mut self, name: Vec<char>, active: bool)
        ensures
            final(self)@ == old(self)@.insert(name@, active),
    {
        self.entries.push((name, active));
        assert(self.entries@.drop_last() =~= old(self).entries@);
    }

    /// Whether the interface `name` is active, or `None` where it is absent.
    pub fn get(&self, name: &str) -> (r: Option<bool>)
        ensures
            r == (if self@.contains_key(name@) {
                Some(self@[name@])
            } else {
                None
            }),
    {
        let key = chars_of(name);
        let ghost es = self.entries@;
        let mut i: usize = self.entries.len();
        assert(es.take(i as int) =~= es);
        while i > 0
            invariant
                es == self.entries@,
                i <= es.len(),
                key@ == name@,
                log_map(es).contains_key(key@) == log_map(es.take(i as int)).contains_key(key@),
                log_map(es).contains_key(key@) ==> log_map(es)[key@] == log_map(
                    es.take(i as int),
                )[key@],
            decreases i,
        {
            assert(es.take(i as int).drop_last() =~= es.take(i - 1));
            if chars_eq(&self.entries[i - 1].0, &key) {
                return Some(self.entries[i - 1].1);
            }
            i = i - 1;
        }
        None
    }
}

fn sub_vec(s: &Vec<char>, a: usize, b: usize) -> (r: Vec<char>)
    requires
        a <= b <= s.len(),
    ensures
        r@ == s@.subrange(a as int, b as int),
{
    let mut r: Vec<char> = Vec::new();
    let mut i: usize = a;
    while i < b
        invariant
            a <= i <= b <= s.len(),
            r@ == s@.subrange(a as int, i as int),
        decreases b - i,
    {
        r.push(s[i]);
        i = i + 1;
        assert(r@ =~= s@.subrange(a as int, i as int));
    }
    r
}

fn trimmed(s: &Vec<char>) -> (r: Vec<char>)
    ensures
        r@ == trim(s@),
{
    let n = s.len();
    let mut a: usize = 0;
    assert(s@.subrange(0, n as int) =~= s@);
    while a < n && is_white(s[a])
        invariant
            a <= n == s.len(),
            trim_start(s@) == trim_start(s@.subrange(a as int, n as int)),
        decreases n - a,
    {
        assert(s@.subrange(a as int, n as int).drop_first() =~= s@.subrange(a + 1, n as int));
        a = a + 1;
    }
    let mut b: usize = n;
    while b > a && is_white(s[b - 1])
        invariant
            a <= b <= n == s.len(),
            trim_start(s@) == s@.subrange(a as int, n as int),
            trim_end(s@.subrange(a as int, n as int)) == trim_end(s@.subrange(a as int, b as int)),
        decreases b,
    {
        assert(s@.subrange(a as int, b as int).drop_last() =~= s@.subrange(a as int, b - 1));
        b = b - 1;
    }
    sub_vec(s, a, b)
}

/// Position of the first `": "` in `s`.
fn find_sep(s: &Vec<char>) -> (r: Option<usize>)
    ensures
        match r {
            None => sep_from(s@, 0) < 0,
            Some(j) => j == sep_from(s@, 0) && j + 1 < s.len(),
        },
{
    let mut j: usize = 0;
    while j < s.len() && j + 1 < s.len()
        invariant
            j <= s.len(),
            sep_from(s@, 0) == sep_from(s@, j as int),
        decreases s.len() - j,
    {
        if s[j] == ':' && s[j + 1] == ' ' {
            return Some(j);
        }
        j = j + 1;
    }
    None
}

fn split_at_sep(s: &Vec<char>) -> (r: Option<(Vec<char>, Vec<char>)>)
    ensures
        match split_once(s@) {
            None => r is None,
            Some((k, v)) => r is Some && r->Some_0.0@ == k && r->Some_0.1@ == v,
        },
{
    match find_sep(s) {
        None => None,
        Some(j) => {
            let k = sub_vec(s, 0, j);
            let v = sub_vec(s, j + 2, s.len());
            assert(k@ =~= s@.take(j as int));
            assert(v@ =~= s@.skip(j + 2));
            Some((k, v))
        },
    }
}

fn is_status_key(k: &Vec<char>) -> (r: bool)
    ensures
        r == (k@ == status_key()),
{
    let r = k.len() == 6 && k[0] == 's' && k[1] == 't' && k[2] == 'a' && k[3] == 't' && k[4] == 'u'
        && k[5] == 's';
    if r {
        assert(k@ =~= status_key());
    }
    r
}

fn is_active_value(v: &Vec<char>) -> (r: bool)
    ensures
        r == (v@ == active_value()),
{
    let r = v.len() == 6 && v[0] == 'a' && v[1] == 'c' && v[2] == 't' && v[3] == 'i' && v[4] == 'v'
        && v[5] == 'e';
    if r {
        assert(v@ =~= active_value());
    }
    r
}

struct Scanner {
    ok: bool,
    current: Option<Vec<char>>,
    states: InterfaceStates,
}

impl Scanner {
    spec fn state(&self) -> ScanState {
        ScanState {
            ok: self.ok,
            current: match self.current {
                None => None,
                Some(c) => Some(c@),
            },
            states: self.states@,
        }
    }

    fn feed(&mut self, line: &Vec<char>)
        ensures
            final(self).state() == scan_line(old(self).state(), line@),
    {
        if !self.ok {
            return;
        }
        if line.len() == 0 || !is_white(line[0]) {
            match split_at_sep(line) {
                None => {
                    self.ok = false;
                },
                Some((name, _)) => {
                    self.current = Some(name);
                },
            }
            return;
        }
        let name = match &self.current {
            None => {
                return;
            },
            Some(name) => name.clone(),
        };
        let t = trimmed(line);
        match split_at_sep(&t) {
            Some((k, v)) => {
                if is_status_key(&k) {
                    let active = is_active_value(&v);
                    self.states.insert(name, active);
                    self.current = None;
                }
            },
            None => {},
        }
    }
}

/// Reads the text of the interface listing into interface name to active flag.
/// A header line without `": "` makes the whole listing unreadable.
pub fn parse_ifconfig_output(output: &str) -> (r: Result<InterfaceStates, ProbeError>)
    ensures
        match parse_spec(output@) {
            Some(m) => r is Ok && r->Ok_0@ == m,
            None => r == Err::<InterfaceStates, ProbeError>(ProbeError::CommandError),
        },
{
    let text = chars_of(output);
    let mut sc = Scanner { ok: true, current: None, states: InterfaceStates::new() };
    let mut line: Vec<char> = Vec::new();
    let mut i: usize = 0;
    assert(sc.state().current == scan_start().current);
    assert(sc.state() == scan_start());
    assert(text@.take(0) =~= Seq::<char>::empty());
    while i < text.len()
        invariant
            i <= text.len(),
            text@ == output@,
            line@ == split_lines_acc(text@.take(i as int)).1,
            sc.state() == scan_lines(split_lines_acc(text@.take(i as int)).0),
        decreases text.len() - i,
    {
        let c = text[i];
        let ghost pre = text@.take(i as int);
        assert(text@.take(i + 1).drop_last() =~= pre);
        if c == '\n' {
            if line.len() > 0 && line[line.len() - 1] == '\r' {
                line.pop();
            }
            let ghost done = split_lines_acc(pre).0;
            sc.feed(&line);
            assert(done.push(line@).drop_last() =~= done);
            line = Vec::new();
            assert(line@ =~= seq![]);
        } else {
            line.push(c);
        }
        i = i + 1;
    }
    assert(text@.take(i as int) =~= output@);
    if line.len() > 0 {
        let ghost done = split_lines_acc(output@).0;
        sc.feed(&line);
        assert(done.push(line@).drop_last() =~= done);
    }
    if sc.ok {
        Ok(sc.states)
    } else {
        Err(ProbeError::CommandError)
    }
}

/// Whether interface `name` is active according to the listing `output`.
pub fn interface_status(output: &str, name: &str) -> (r: Result<bool, ProbeError>)
    ensures
        match parse_spec(output@) {
            None => r == Err::<bool, ProbeError>(ProbeError::CommandError),
            Some(m) => if m.contains_key(name@) {
                r == Ok::<bool, ProbeError>(m[name@])
            } else {
                r == Err::<bool, ProbeError>(ProbeError::InterfaceNotFound)
            },
        },
{
    let states = parse_ifconfig_output(output)?;
    match states.get(name) {
        Some(active) => Ok(active),
        None => Err(ProbeError::InterfaceNotFound),
    }
}

} // verus!
