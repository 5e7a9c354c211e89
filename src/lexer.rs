use vstd::prelude::*;

verus! {

/// One parsed line of the circuit language, as handed to the builder.
#[allow(inconsistent_fields)]
pub enum LexInstruction {
    /// `label: GATE in1,in2 -> out1,out2`
    Gate { inputs: Vec<usize>, gate: String, outputs: Vec<usize>, label: Option<String> },
    /// `label: GOTO target`
    Goto { goto: String, label: Option<String> },
    /// `DEF name inputs`: opens a definition.
    Def { name: String, inputs: usize },
    /// `OUT out1,out2`: the output nets of the open definition.
    Out { outputs: Vec<usize> },
}

/// A gate definition gathered in one piece.
pub struct LexGate {
    pub name: String,
    pub inputs: usize,
    pub gates: Vec<LexGateInstruction>,
    pub outputs: Vec<usize>,
}

/// An instruction of a `LexGate`.
pub enum LexGateInstruction {
    Gate { inputs: Vec<usize>, gate: String, outputs: Vec<usize> },
    Goto { label: String },
}

impl LexInstruction {
    pub fn new_gate(inputs: Vec<usize>, gate: String, outputs: Vec<usize>, label: Option<String>) -> (r: Self)
        ensures
            r == (LexInstruction::Gate { inputs, gate, outputs, label }),
    {
        LexInstruction::Gate { inputs, gate, outputs, label }
    }

    pub fn new_goto(goto: String, label: Option<String>) -> (r: Self)
        ensures
            r == (LexInstruction::Goto { goto, label }),
    {
        LexInstruction::Goto { goto, label }
    }

    pub fn new_def(name: String, inputs: usize) -> (r: Self)
        ensures
            r == (LexInstruction::Def { name, inputs }),
    {
        LexInstruction::Def { name, inputs }
    }

    pub fn new_out(outputs: Vec<usize>) -> (r: Self)
        ensures
            r == (LexInstruction::Out { outputs }),
    {
        LexInstruction::Out { outputs }
    }
}

pub open spec fn is_digit(c: char) -> bool {
    '0' <= c && c <= '9'
}

/// `s` is a non-empty run of decimal digits.
pub open spec fn is_digits(s: Seq<char>) -> bool {
    s.len() > 0 && forall|k: int| 0 <= k < s.len() ==> is_digit(#[trigger] s[k])
}

/// The value of the decimal digits `s`.
pub open spec fn digits_value(s: Seq<char>) -> nat
    decreases s.len(),
{
    if s.len() == 0 {
        0
    } else {
        digits_value(s.drop_last()) * 10 + ((s.last() as nat) - ('0' as nat)) as nat
    }
}

/// The run of digits `s` as a `usize`, if it is one and fits.
pub open spec fn digits_number(s: Seq<char>) -> Option<usize> {
    if is_digits(s) && digits_value(s) <= usize::MAX {
        Some(digits_value(s) as usize)
    } else {
        None
    }
}

/// `s` names a net index that fits a `usize`: decimal digits, after at
/// most one leading `+`.
pub open spec fn number_of(s: Seq<char>) -> Option<usize> {
    if s.len() > 0 && s[0] == '+' {
        digits_number(s.drop_first())
    } else {
        digits_number(s)
    }
}

/// A longer run of digits is worth at least as much as its prefix.
proof fn lemma_digits_prefix(s: Seq<char>, k: int)
    requires
        0 <= k <= s.len(),
        forall|i: int| 0 <= i < s.len() ==> is_digit(#[trigger] s[i]),
    ensures
        digits_value(s.take(k)) <= digits_value(s),
    decreases s.len(),
{
    if k < s.len() {
        assert(s.drop_last().take(k) =~= s.take(k));
        lemma_digits_prefix(s.drop_last(), k);
    } else {
        assert(s.take(k) =~= s);
    }
}

/// Parses a decimal net index, with an optional leading `+`.
pub fn parse_number(s: &Vec<char>) -> (r: Option<usize>)
    ensures
        r == number_of(s@),
{
    if s.len() > 0 && s[0] == '+' {
        let d = suffix(s, 1);
        assert(d@ =~= s@.drop_first());
        parse_digits(&d)
    } else {
        parse_digits(s)
    }
}

/// The characters of `v` from index `k` on.
fn suffix(v: &Vec<char>, k: usize) -> (r: Vec<char>)
    requires
        k <= v@.len(),
    ensures
        r@ == v@.subrange(k as int, v@.len() as int),
{
    let mut r: Vec<char> = Vec::new();
    let mut i: usize = k;
    while i < v.len()
        invariant
            k <= i <= v@.len(),
            r@ == v@.subrange(k as int, i as int),
        decreases v@.len() - i,
    {
        r.push(v[i]);
        assert(v@.subrange(k as int, i + 1) =~= v@.subrange(k as int, i as int).push(v@[i as int]));
        i += 1;
    }
    r
}

/// Parses a run of decimal digits.
fn parse_digits(s: &Vec<char>) -> (r: Option<usize>)
    ensures
        r == digits_number(s@),
{
    if s.len() == 0 {
        return None;
    }
    let mut v: usize = 0;
    let mut i: usize = 0;
    while i < s.len()
        invariant
            0 < s@.len(),
            i <= s@.len(),
            forall|k: int| 0 <= k < i ==> is_digit(#[trigger] s@[k]),
            v == digits_value(s@.take(i as int)),
        decreases s@.len() - i,
    {
        let c = s[i];
        if !('0' <= c && c <= '9') {
            assert(!is_digits(s@));
            return None;
        }
        let d = (c as u32 - '0' as u32) as usize;
        assert(s@.take(i + 1).drop_last() =~= s@.take(i as int));
        if v > (usize::MAX - d) / 10 {
            proof {
                assert(digits_value(s@.take(i + 1)) == v * 10 + d);
                assert(v * 10 + d > usize::MAX) by (nonlinear_arith)
                    requires v > (usize::MAX - d) / 10, d <= 9;
                let ghost j: int = i as int + 1;
                let ghost rest_digits = forall|k: int| 0 <= k < s@.len() ==> is_digit(#[trigger] s@[k]);
                if rest_digits {
                    lemma_digits_prefix(s@, j);
                }
            }
            return None;
        }
        assert(v * 10 + d <= usize::MAX) by (nonlinear_arith)
            requires v <= (usize::MAX - d) / 10, d <= 9;
        v = v * 10 + d;
        i += 1;
    }
    assert(s@.take(i as int) =~= s@);
    Some(v)
}

/// The pieces of `s` between occurrences of `d`, empty pieces included.
pub open spec fn split_on(s: Seq<char>, d: char) -> Seq<Seq<char>>
    decreases s.len(),
{
    if s.len() == 0 {
        seq![Seq::<char>::empty()]
    } else {
        let p = split_on(s.drop_last(), d);
        if s.last() == d {
            p.push(Seq::<char>::empty())
        } else {
            p.update(p.len() - 1, p.last().push(s.last()))
        }
    }
}

/// The indices listed in `s`, separated by `d`; `None` unless every piece
/// is a number.
pub open spec fn list_of(s: Seq<char>, d: char) -> Option<Seq<usize>> {
    let p = split_on(s, d);
    if forall|k: int| 0 <= k < p.len() ==> (#[trigger] number_of(p[k])) is Some {
        Some(p.map_values(|q: Seq<char>| number_of(q)->Some_0))
    } else {
        None
    }
}

/// Parses a list of net indices separated by `delim`.
pub fn str_to_vec(input: &Vec<char>, delim: char) -> (r: Option<Vec<usize>>)
    ensures
        match r {
            Some(v) => list_of(input@, delim) == Some(v@),
            None => list_of(input@, delim) is None,
        },
{
    let mut out: Vec<usize> = Vec::new();
    let mut cur: Vec<char> = Vec::new();
    let mut ok = true;
    let mut i: usize = 0;
    while i < input.len()
        invariant
            i <= input@.len(),
            split_on(input@.take(i as int), delim).len() >= 1,
            cur@ == split_on(input@.take(i as int), delim).last(),
            ok == forall|k: int|
                0 <= k < split_on(input@.take(i as int), delim).len() - 1
                    ==> (#[trigger] number_of(split_on(input@.take(i as int), delim)[k])) is Some,
            ok ==> out@ == split_on(input@.take(i as int), delim).drop_last().map_values(
                |q: Seq<char>| number_of(q)->Some_0,
            ),
        decreases input@.len() - i,
    {
        let ghost pre = split_on(input@.take(i as int), delim);
        assert(input@.take(i + 1).drop_last() =~= input@.take(i as int));
        let c = input[i];
        if c == delim {
            let ghost post = split_on(input@.take(i + 1), delim);
            assert(post == pre.push(Seq::<char>::empty()));
            match parse_number(&cur) {
                Some(n) => {
                    if ok {
                        out.push(n);
                        assert(post.drop_last().drop_last() =~= pre.drop_last());
                        assert(out@ =~= post.drop_last().map_values(|q: Seq<char>| number_of(q)->Some_0));
                    }
                },
                None => {
                    ok = false;
                },
            }
            assert(ok == forall|k: int| 0 <= k < post.len() - 1 ==> (#[trigger] number_of(post[k])) is Some) by {
                if ok {
                    assert forall|k: int| 0 <= k < post.len() - 1 implies (#[trigger] number_of(post[k])) is Some by {
                        if k < pre.len() - 1 {
                            assert(post[k] == pre[k]);
                        }
                    }
                } else {
                    if number_of(cur@) is Some {
                        let k = choose|k: int| 0 <= k < pre.len() - 1 && !(#[trigger] number_of(pre[k]) is Some);
                        assert(post[k] == pre[k]);
                    } else {
                        assert(post[pre.len() - 1] == cur@);
                    }
                }
            }
            cur = Vec::new();
        } else {
            cur.push(c);
            let ghost post = split_on(input@.take(i + 1), delim);
            assert(post == pre.update(pre.len() - 1, pre.last().push(c)));
            assert(post.drop_last() =~= pre.drop_last());
            assert forall|k: int| 0 <= k < post.len() - 1 implies post[k] == pre[k] by {}
        }
        i += 1;
    }
    assert(input@.take(i as int) =~= input@);
    let ghost p = split_on(input@, delim);
    match parse_number(&cur) {
        Some(n) => {
            if ok {
                out.push(n);
                assert(p.drop_last().push(p.last()) =~= p);
                assert(out@ =~= p.map_values(|q: Seq<char>| number_of(q)->Some_0));
                return Some(out);
            }
            None
        },
        None => {
            assert(number_of(p[p.len() - 1]) is None);
            None
        },
    }
}

pub open spec fn is_space(c: char) -> bool {
    c == ' ' || c == '\t' || c == '\r'
}

/// Reading `s` left to right: the words already closed, and the word
/// being read.
pub open spec fn scan(s: Seq<char>) -> (Seq<Seq<char>>, Seq<char>)
    decreases s.len(),
{
    if s.len() == 0 {
        (Seq::empty(), Seq::empty())
    } else {
        let (done, cur) = scan(s.drop_last());
        if is_space(s.last()) {
            if cur.len() > 0 {
                (done.push(cur), Seq::empty())
            } else {
                (done, Seq::empty())
            }
        } else {
            (done, cur.push(s.last()))
        }
    }
}

/// The words of `s`: its maximal runs of non-blank characters.
pub open spec fn words(s: Seq<char>) -> Seq<Seq<char>> {
    let (done, cur) = scan(s);
    if cur.len() > 0 {
        done.push(cur)
    } else {
        done
    }
}

pub open spec fn views(v: Seq<Vec<char>>) -> Seq<Seq<char>> {
    v.map_values(|w: Vec<char>| w@)
}

/// Splits `line` into its words.
pub fn split_words(line: &Vec<char>) -> (r: Vec<Vec<char>>)
    ensures
        views(r@) == words(line@),
{
    let mut done: Vec<Vec<char>> = Vec::new();
    let mut cur: Vec<char> = Vec::new();
    let mut i: usize = 0;
    while i < line.len()
        invariant
            i <= line@.len(),
            scan(line@.take(i as int)) == (views(done@), cur@),
        decreases line@.len() - i,
    {
        assert(line@.take(i + 1).drop_last() =~= line@.take(i as int));
        let c = line[i];
        if c == ' ' || c == '\t' || c == '\r' {
            if cur.len() > 0 {
                let ghost d0 = done@;
                done.push(cur);
                assert(views(done@) =~= views(d0).push(views(done@).last()));
                cur = Vec::new();
            }
        } else {
            cur.push(c);
        }
        i += 1;
    }
    assert(line@.take(i as int) =~= line@);
    if cur.len() > 0 {
        let ghost d0 = done@;
        done.push(cur);
        assert(views(done@) =~= views(d0).push(views(done@).last()));
    }
    done
}

/// Whether two character sequences are equal.
fn same_chars(a: &Vec<char>, b: &Vec<char>) -> (r: bool)
    ensures
        r == (a@ == b@),
{
    if a.len() != b.len() {
        return false;
    }
    let mut i: usize = 0;
    while i < a.len()
        invariant
            i <= a@.len(),
            a@.len() == b@.len(),
            forall|k: int| 0 <= k < i ==> a@[k] == b@[k],
        decreases a@.len() - i,
    {
        if a[i] != b[i] {
            return false;
        }
        i += 1;
    }
    assert(a@ =~= b@);
    true
}

/// `w` spells the upper-case keyword `kw`, each letter in either case.
pub open spec fn keyword_is(w: Seq<char>, kw: Seq<char>) -> bool {
    &&& w.len() == kw.len()
    &&& forall|k: int|
        0 <= k < w.len() ==> (#[trigger] w[k]) == kw[k] || w[k] as u32 == kw[k] as u32 + 32
}

/// Whether `w` spells the upper-case keyword `kw` in any case.
fn same_keyword(w: &Vec<char>, kw: &Vec<char>) -> (r: bool)
    ensures
        r == keyword_is(w@, kw@),
{
    if w.len() != kw.len() {
        return false;
    }
    let mut i: usize = 0;
    while i < w.len()
        invariant
            i <= w@.len(),
            w@.len() == kw@.len(),
            forall|k: int| 0 <= k < i ==> (#[trigger] w@[k]) == kw@[k] || w@[k] as u32 == kw@[k] as u32 + 32,
        decreases w@.len() - i,
    {
        let c = w[i];
        let u = kw[i];
        if !(c == u || (c as u32 >= 32 && c as u32 - 32 == u as u32)) {
            return false;
        }
        i += 1;
    }
    true
}

/// Relies on `String::from_iter` over chars: the string holds exactly the
/// given characters, in order.
#[verifier::external_body]
fn string_of(cs: &Vec<char>) -> (r: String)
    ensures
        r@ == cs@,
{
    String::from_iter(cs.iter())
}

/// What a line says, over plain values.
#[allow(inconsistent_fields)]
pub enum LexShape {
    Gate { inputs: Seq<usize>, gate: Seq<char>, outputs: Seq<usize>, label: Option<Seq<char>> },
    Goto { goto: Seq<char>, label: Option<Seq<char>> },
    Def { name: Seq<char>, inputs: usize },
    Out { outputs: Seq<usize> },
}

pub open spec fn label_view(l: Option<String>) -> Option<Seq<char>> {
    match l {
        Some(s) => Some(s@),
        None => None,
    }
}

impl LexInstruction {
    pub open spec fn shape(&self) -> LexShape {
        match self {
            LexInstruction::Gate { inputs, gate, outputs, label } => LexShape::Gate {
                inputs: inputs@,
                gate: gate@,
                outputs: outputs@,
                label: label_view(*label),
            },
            LexInstruction::Goto { goto, label } => LexShape::Goto { goto: goto@, label: label_view(*label) },
            LexInstruction::Def { name, inputs } => LexShape::Def { name: name@, inputs: *inputs },
            LexInstruction::Out { outputs } => LexShape::Out { outputs: outputs@ },
        }
    }
}

/// A word ending in `:` that names the line's instruction.
pub open spec fn is_label(w: Seq<char>) -> bool {
    w.len() >= 2 && w.last() == ':'
}

/// An invoke or a jump, from the words after the optional label.
pub open spec fn body_shape(b: Seq<Seq<char>>, label: Option<Seq<char>>) -> Option<LexShape> {
    if b.len() == 2 && keyword_is(b[0], seq!['G', 'O', 'T', 'O']) {
        Some(LexShape::Goto { goto: b[1], label })
    } else if b.len() == 4 && b[2] == seq!['-', '>'] {
        match (list_of(b[1], ','), list_of(b[3], ',')) {
            (Some(i), Some(o)) => Some(LexShape::Gate { inputs: i, gate: b[0], outputs: o, label }),
            _ => None,
        }
    } else {
        None
    }
}

/// The instruction a line of words states, if it is one of
/// `DEF name n`, `OUT o1,o2`, `[label:] GOTO target` and
/// `[label:] GATE i1,i2 -> o1,o2`.
pub open spec fn shape_of_words(t: Seq<Seq<char>>) -> Option<LexShape> {
    if t.len() == 3 && keyword_is(t[0], seq!['D', 'E', 'F']) {
        match number_of(t[2]) {
            Some(n) => Some(LexShape::Def { name: t[1], inputs: n }),
            None => None,
        }
    } else if t.len() == 2 && keyword_is(t[0], seq!['O', 'U', 'T']) {
        match list_of(t[1], ',') {
            Some(o) => Some(LexShape::Out { outputs: o }),
            None => None,
        }
    } else if t.len() > 0 && is_label(t[0]) {
        body_shape(t.drop_first(), Some(t[0].drop_last()))
    } else {
        body_shape(t, None)
    }
}

/// The first `n` characters of `v`.
fn prefix(v: &Vec<char>, n: usize) -> (r: Vec<char>)
    requires
        n <= v@.len(),
    ensures
        r@ == v@.take(n as int),
{
    let mut r: Vec<char> = Vec::new();
    let mut i: usize = 0;
    while i < n
        invariant
            i <= n,
            n <= v@.len(),
            r@ == v@.take(i as int),
        decreases n - i,
    {
        r.push(v[i]);
        assert(v@.take(i + 1) =~= v@.take(i as int).push(v@[i as int]));
        i += 1;
    }
    r
}

/// The invoke or jump stated by the words `t[start..]`.
fn parse_body(t: &Vec<Vec<char>>, start: usize, label: Option<String>) -> (r: Option<LexInstruction>)
    requires
        start <= t@.len(),
    ensures
        match r {
            Some(x) => body_shape(views(t@).skip(start as int), label_view(label)) == Some(x.shape()),
            None => body_shape(views(t@).skip(start as int), label_view(label)) is None,
        },
{
    let ghost b = views(t@).skip(start as int);
    let n = t.len() - start;
    if n == 2 && same_keyword(&t[start], &vec!['G', 'O', 'T', 'O']) {
        assert(b[0] == t@[start as int]@);
        assert(b[1] == t@[start + 1]@);
        return Some(LexInstruction::Goto { goto: string_of(&t[start + 1]), label });
    }
    if n == 4 && same_chars(&t[start + 2], &vec!['-', '>']) {
        assert(b[0] == t@[start as int]@);
        assert(b[1] == t@[start + 1]@);
        assert(b[2] == t@[start + 2]@);
        assert(b[3] == t@[start + 3]@);
        let inputs = match str_to_vec(&t[start + 1], ',') {
            Some(v) => v,
            None => {
                return None;
            },
        };
        let outputs = match str_to_vec(&t[start + 3], ',') {
            Some(v) => v,
            None => {
                return None;
            },
        };
        return Some(LexInstruction::Gate { inputs, gate: string_of(&t[start]), outputs, label });
    }
    proof {
        if n == 2 {
            assert(b[0] == t@[start as int]@);
        }
        if n == 4 {
            assert(b[2] == t@[start + 2]@);
        }
    }
    None
}

impl LexInstruction {
    /// Reads one line of the circuit language. Keywords match in any
    /// ASCII case;
    /// words are separated by blanks and lists by commas, without blanks.
    pub fn from_chars(line: &Vec<char>) -> (r: Option<LexInstruction>)
        ensures
            match r {
                Some(x) => shape_of_words(words(line@)) == Some(x.shape()),
                None => shape_of_words(words(line@)) is None,
            },
    {
        let t = split_words(line);
        let ghost tv = views(t@);
        if t.len() == 3 && same_keyword(&t[0], &vec!['D', 'E', 'F']) {
            assert(tv[2] == t@[2]@ && tv[1] == t@[1]@);
            return match parse_number(&t[2]) {
                Some(n) => Some(LexInstruction::Def { name: string_of(&t[1]), inputs: n }),
                None => None,
            };
        }
        if t.len() == 2 && same_keyword(&t[0], &vec!['O', 'U', 'T']) {
            assert(tv[1] == t@[1]@);
            return match str_to_vec(&t[1], ',') {
                Some(o) => Some(LexInstruction::Out { outputs: o }),
                None => None,
            };
        }
        proof {
            if t@.len() > 0 {
                assert(tv[0] == t@[0]@);
            }
        }
        if t.len() > 0 && t[0].len() >= 2 && t[0][t[0].len() - 1] == ':' {
            let l = prefix(&t[0], t[0].len() - 1);
            assert(l@ =~= tv[0].drop_last());
            assert(tv.drop_first() =~= views(t@).skip(1));
            parse_body(&t, 1, Some(string_of(&l)))
        } else {
            assert(tv =~= views(t@).skip(0));
            parse_body(&t, 0, None)
        }
    }
}

/// Splits `s` at every `d`, keeping empty pieces.
pub fn split_at_char(s: &Vec<char>, d: char) -> (r: Vec<Vec<char>>)
    ensures
        views(r@) == split_on(s@, d),
{
    let mut done: Vec<Vec<char>> = Vec::new();
    let mut cur: Vec<char> = Vec::new();
    let mut i: usize = 0;
    while i < s.len()
        invariant
            i <= s@.len(),
            split_on(s@.take(i as int), d) == views(done@).push(cur@),
        decreases s@.len() - i,
    {
        assert(s@.take(i + 1).drop_last() =~= s@.take(i as int));
        let ghost pre = views(done@).push(cur@);
        let c = s[i];
        if c == d {
            let ghost d0 = done@;
            done.push(cur);
            assert(views(done@) =~= views(d0).push(views(done@).last()));
            cur = Vec::new();
            assert(views(done@).push(cur@) =~= pre.push(Seq::<char>::empty()));
        } else {
            cur.push(c);
            assert(views(done@).push(cur@) =~= pre.update(pre.len() - 1, pre.last().push(c)));
        }
        i += 1;
    }
    assert(s@.take(i as int) =~= s@);
    let ghost d0 = done@;
    done.push(cur);
    assert(views(done@) =~= views(d0).push(views(done@).last()));
    done
}

/// The instructions stated by `lines`, blank lines skipped; `None` if
/// any other line states none.
pub open spec fn shapes_of_lines(lines: Seq<Seq<char>>) -> Option<Seq<LexShape>>
    decreases lines.len(),
{
    if lines.len() == 0 {
        Some(Seq::empty())
    } else {
        match shapes_of_lines(lines.drop_last()) {
            None => None,
            Some(p) => if words(lines.last()).len() == 0 {
                Some(p)
            } else {
                match shape_of_words(words(lines.last())) {
                    Some(x) => Some(p.push(x)),
                    None => None,
                }
            },
        }
    }
}

pub open spec fn shapes(v: Seq<LexInstruction>) -> Seq<LexShape> {
    v.map_values(|x: LexInstruction| x.shape())
}

/// Reads a whole text of the circuit language, one instruction per line.
pub fn instructions(text: &Vec<char>) -> (r: Option<Vec<LexInstruction>>)
    ensures
        match r {
            Some(v) => shapes_of_lines(split_on(text@, '\n')) == Some(shapes(v@)),
            None => shapes_of_lines(split_on(text@, '\n')) is None,
        },
{
    let lines = split_at_char(text, '\n');
    let ghost lv = views(lines@);
    let mut out: Vec<LexInstruction> = Vec::new();
    let mut i: usize = 0;
    while i < lines.len()
        invariant
            i <= lines@.len(),
            lv == views(lines@),
            lv == split_on(text@, '\n'),
            shapes_of_lines(lv.take(i as int)) == Some(shapes(out@)),
        decreases lines@.len() - i,
    {
        assert(lv.take(i + 1).drop_last() =~= lv.take(i as int));
        assert(lv.take(i + 1).last() == lines@[i as int]@);
        let ws = split_words(&lines[i]);
        if ws.len() > 0 {
            match LexInstruction::from_chars(&lines[i]) {
                Some(x) => {
                    let ghost o0 = out@;
                    out.push(x);
                    assert(shapes(out@) =~= shapes(o0).push(x.shape()));
                },
                None => {
                    proof {
                        assert(shapes_of_lines(lv.take(i + 1)) is None);
                        lemma_shapes_none_extends(lv, i as int + 1);
                    }
                    return None;
                },
            }
        }
        i += 1;
    }
    assert(lv.take(i as int) =~= lv);
    Some(out)
}

/// Once a prefix of the lines states no instruction list, no longer
/// prefix does.
proof fn lemma_shapes_none_extends(lines: Seq<Seq<char>>, k: int)
    requires
        0 <= k <= lines.len(),
        shapes_of_lines(lines.take(k)) is None,
    ensures
        shapes_of_lines(lines) is None,
    decreases lines.len() - k,
{
    if k < lines.len() {
        assert(lines.take(k + 1).drop_last() =~= lines.take(k));
        lemma_shapes_none_extends(lines, k + 1);
    } else {
        assert(lines.take(k) =~= lines);
    }
}

} // verus!
