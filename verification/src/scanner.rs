use vstd::prelude::*;
use vstd::string::*;

verus! {

/// One token of the source text. A float numeral is kept as its text
/// (underscore separators removed); only a caller that needs the machine
/// value interprets it.
#[derive(Clone, Debug)]
pub enum Token {
    Grouping { char_: char },
    Integer { value: i64 },
    Float { text: String },
    Identifier { name: String },
    Operator { operator: String },
}

/// Why scanning aborted: a character outside every class, or a numeral that
/// is not a number (more than one dot).
#[derive(Clone, Debug)]
pub enum ScanError {
    UnexpectedCharacter(char),
    InvalidNumber(String),
}

/// A token stripped of its `String` carriers, for stating contracts.
pub enum TokV {
    G(char),
    I(i64),
    F(Seq<char>),
    Id(Seq<char>),
    Op(Seq<char>),
}

/// A scan error stripped of its `String` carrier.
pub enum ScanErrV {
    Unexpected(char),
    BadNumber(Seq<char>),
}

pub open spec fn tok_view(t: Token) -> TokV {
    match t {
        Token::Grouping { char_ } => TokV::G(char_),
        Token::Integer { value } => TokV::I(value),
        Token::Float { text } => TokV::F(text@),
        Token::Identifier { name } => TokV::Id(name@),
        Token::Operator { operator } => TokV::Op(operator@),
    }
}

pub open spec fn err_view(e: ScanError) -> ScanErrV {
    match e {
        ScanError::UnexpectedCharacter(c) => ScanErrV::Unexpected(c),
        ScanError::InvalidNumber(t) => ScanErrV::BadNumber(t@),
    }
}

pub open spec fn is_digit(c: char) -> bool {
    '0' <= c && c <= '9'
}

pub open spec fn is_alpha(c: char) -> bool {
    ('a' <= c && c <= 'z') || ('A' <= c && c <= 'Z')
}

pub open spec fn is_ident_start(c: char) -> bool {
    is_alpha(c) || c == '_'
}

pub open spec fn is_ident_char(c: char) -> bool {
    is_alpha(c) || is_digit(c) || c == '_'
}

pub open spec fn is_space(c: char) -> bool {
    c == ' ' || c == '\t' || c == '\r' || c == '\n'
}

pub open spec fn is_op_char(c: char) -> bool {
    c == '+' || c == '-' || c == '*' || c == '/' || c == '%' || c == '^'
}

pub open spec fn is_num_cont(c: char) -> bool {
    is_digit(c) || c == '.' || c == '_'
}

/// End of the greedy run of numeral characters starting at `i`.
pub open spec fn num_end(s: Seq<char>, i: int) -> int
    decreases s.len() - i,
{
    if 0 <= i < s.len() && is_num_cont(s[i]) {
        num_end(s, i + 1)
    } else {
        i
    }
}

/// End of the greedy run of identifier characters starting at `i`.
pub open spec fn ident_end(s: Seq<char>, i: int) -> int
    decreases s.len() - i,
{
    if 0 <= i < s.len() && is_ident_char(s[i]) {
        ident_end(s, i + 1)
    } else {
        i
    }
}

/// The sequence with its underscore separators removed.
pub open spec fn no_us(s: Seq<char>) -> Seq<char>
    decreases s.len(),
{
    if s.len() == 0 {
        Seq::empty()
    } else if s.last() == '_' {
        no_us(s.drop_last())
    } else {
        no_us(s.drop_last()).push(s.last())
    }
}

/// How many dots the text holds.
pub open spec fn dots(s: Seq<char>) -> int
    decreases s.len(),
{
    if s.len() == 0 {
        0
    } else {
        dots(s.drop_last()) + (if s.last() == '.' {
            1int
        } else {
            0int
        })
    }
}

/// Decimal parsing exactly as attempted on a numeral's text: the `i64`
/// value when every character is a digit and the value fits, nothing
/// otherwise.
pub open spec fn spec_parse_i64(s: Seq<char>) -> Option<i64>
    decreases s.len(),
{
    if s.len() == 0 {
        Some(0i64)
    } else {
        match spec_parse_i64(s.drop_last()) {
            Some(v) => if is_digit(s.last()) {
                match v.checked_mul(10) {
                    Some(v10) => v10.checked_add((s.last() as int - '0' as int) as i64),
                    None => None,
                }
            } else {
                None
            },
            None => None,
        }
    }
}

/// What the numeral starting at `i` scans to: an integer token when its
/// text (underscores removed) is all digits and fits `i64`; otherwise a
/// float token, provided the text holds at most one dot; otherwise the
/// numeral is invalid.
pub open spec fn spec_number(s: Seq<char>, i: int) -> Result<(TokV, int), ScanErrV> {
    let j = num_end(s, i + 1);
    let text = no_us(s.subrange(i, j));
    match spec_parse_i64(text) {
        Some(v) => Ok((TokV::I(v), j)),
        None => if dots(text) <= 1 {
            Ok((TokV::F(text), j))
        } else {
            Err(ScanErrV::BadNumber(text))
        },
    }
}

/// Prepend one token view to a scan result.
pub open spec fn cons_result(tv: TokV, r: Result<Seq<TokV>, ScanErrV>) -> Result<
    Seq<TokV>,
    ScanErrV,
> {
    match r {
        Ok(ts) => Ok(seq![tv] + ts),
        Err(e) => Err(e),
    }
}

/// The whole scan from position `i`: a single left-to-right pass,
/// classifying each token by its first character, skipping whitespace, and
/// aborting on the first unexpected character or invalid numeral.
pub open spec fn spec_scan_from(s: Seq<char>, i: int) -> Result<Seq<TokV>, ScanErrV>
    decreases s.len() - i, 1int,
{
    if !(0 <= i < s.len()) {
        Ok(Seq::empty())
    } else {
        let c = s[i];
        if is_space(c) {
            spec_scan_from(s, i + 1)
        } else if is_ident_start(c) {
            let j = ident_end(s, i + 1);
            if i < j <= s.len() {
                cons_result(TokV::Id(s.subrange(i, j)), spec_scan_from(s, j))
            } else {
                Ok(Seq::empty())
            }
        } else if is_op_char(c) {
            cons_result(TokV::Op(seq![c]), spec_scan_from(s, i + 1))
        } else if c == '(' || c == ')' {
            cons_result(TokV::G(c), spec_scan_from(s, i + 1))
        } else if is_digit(c) {
            match spec_number(s, i) {
                Ok((tv, j)) => if i < j <= s.len() {
                    cons_result(tv, spec_scan_from(s, j))
                } else {
                    Ok(Seq::empty())
                },
                Err(e) => Err(e),
            }
        } else {
            Err(ScanErrV::Unexpected(c))
        }
    }
}

pub open spec fn toks_view(ts: Seq<Token>) -> Seq<TokV> {
    Seq::new(ts.len(), |k: int| tok_view(ts[k]))
}

/// The greedy runs stay inside the text and move forward.
proof fn lemma_num_end_bounds(s: Seq<char>, i: int)
    requires
        0 <= i <= s.len(),
    ensures
        i <= num_end(s, i) <= s.len(),
    decreases s.len() - i,
{
    if 0 <= i < s.len() && is_num_cont(s[i]) {
        lemma_num_end_bounds(s, i + 1);
    }
}

proof fn lemma_ident_end_bounds(s: Seq<char>, i: int)
    requires
        0 <= i <= s.len(),
    ensures
        i <= ident_end(s, i) <= s.len(),
    decreases s.len() - i,
{
    if 0 <= i < s.len() && is_ident_char(s[i]) {
        lemma_ident_end_bounds(s, i + 1);
    }
}

/// Relies on std's `String::push`: appends exactly one character.
#[verifier::external_body]
pub(crate) fn push_char(s: &mut String, c: char)
    ensures
        final(s)@ == old(s)@.push(c),
{
    s.push(c);
}

/// A one-character `String` holding the scanned operator.
fn op_string(c: char) -> (s: String)
    requires
        is_op_char(c),
    ensures
        s@ =~= seq![c],
{
    proof {
        reveal_strlit("+");
        reveal_strlit("-");
        reveal_strlit("*");
        reveal_strlit("/");
        reveal_strlit("%");
        reveal_strlit("^");
    }
    if c == '+' {
        String::from_str("+")
    } else if c == '-' {
        String::from_str("-")
    } else if c == '*' {
        String::from_str("*")
    } else if c == '/' {
        String::from_str("/")
    } else if c == '%' {
        String::from_str("%")
    } else {
        String::from_str("^")
    }
}

fn is_num_cont_exec(c: char) -> (r: bool)
    ensures
        r == is_num_cont(c),
{
    ('0' <= c && c <= '9') || c == '.' || c == '_'
}

fn is_digit_exec(c: char) -> (r: bool)
    ensures
        r == is_digit(c),
{
    '0' <= c && c <= '9'
}

fn is_ident_char_exec(c: char) -> (r: bool)
    ensures
        r == is_ident_char(c),
{
    ('a' <= c && c <= 'z') || ('A' <= c && c <= 'Z') || ('0' <= c && c <= '9') || c == '_'
}

/// The decimal parse attempted on a numeral's text.
fn parse_decimal_i64(t: &String) -> (r: Option<i64>)
    ensures
        r == spec_parse_i64(t@),
{
    let s = t.as_str();
    let n = s.unicode_len();
    let mut acc: Option<i64> = Some(0);
    let mut k: usize = 0;
    while k < n
        invariant
            k <= n,
            n == t@.len(),
            s@ == t@,
            acc == spec_parse_i64(t@.subrange(0, k as int)),
        decreases n - k,
    {
        let c = s.get_char(k);
        acc = match acc {
            Some(v) => {
                if '0' <= c && c <= '9' {
                    match v.checked_mul(10) {
                        Some(v10) => v10.checked_add((c as i64) - ('0' as i64)),
                        None => None,
                    }
                } else {
                    None
                }
            },
            None => None,
        };
        proof {
            assert(t@.subrange(0, k + 1 as int).drop_last() =~= t@.subrange(0, k as int));
            assert(t@.subrange(0, k + 1 as int).last() == t@[k as int]);
        }
        k = k + 1;
    }
    proof {
        assert(t@.subrange(0, n as int) =~= t@);
    }
    acc
}

/// Scan the numeral starting at `i` (whose first character is a digit):
/// greedy over digits, dots and ignored underscores, then an integer parse
/// with a fall back to a float numeral.
fn scan_number(source: &str, i: usize, n: usize) -> (r: Result<(Token, usize), ScanError>)
    requires
        n == source@.len(),
        i < n,
        is_digit(source@[i as int]),
    ensures
        match r {
            Ok((t, j)) => i < j <= n && spec_number(source@, i as int) == Ok::<
                (TokV, int),
                ScanErrV,
            >((tok_view(t), j as int)),
            Err(e) => spec_number(source@, i as int) == Err::<(TokV, int), ScanErrV>(err_view(e)),
        },
{
    let ghost s = source@;
    let mut k: usize = i + 1;
    while k < n && is_num_cont_exec(source.get_char(k))
        invariant
            n == s.len(),
            source@ == s,
            i < k <= n,
            num_end(s, i + 1 as int) == num_end(s, k as int),
        decreases n - k,
    {
        k = k + 1;
    }
    proof {
        assert(num_end(s, k as int) == k as int);
    }
    let j = k;
    let mut text = String::new();
    let mut nd: usize = 0;
    let mut k2: usize = i;
    while k2 < j
        invariant
            n == s.len(),
            source@ == s,
            i <= k2 <= j,
            j <= n,
            text@ == no_us(s.subrange(i as int, k2 as int)),
            nd as int == dots(text@),
            nd as int <= k2 as int - i as int,
        decreases j - k2,
    {
        let c = source.get_char(k2);
        let ghost t_old = text@;
        if c != '_' {
            push_char(&mut text, c);
            proof {
                assert(text@.drop_last() =~= t_old);
                assert(text@.last() == c);
            }
            if c == '.' {
                nd = nd + 1;
            }
        }
        proof {
            assert(s.subrange(i as int, k2 + 1 as int).drop_last() =~= s.subrange(
                i as int,
                k2 as int,
            ));
            assert(s.subrange(i as int, k2 + 1 as int).last() == s[k2 as int]);
        }
        k2 = k2 + 1;
    }
    match parse_decimal_i64(&text) {
        Some(v) => Ok((Token::Integer { value: v }, j)),
        None => {
            if nd <= 1 {
                Ok((Token::Float { text }, j))
            } else {
                Err(ScanError::InvalidNumber(text))
            }
        },
    }
}

/// Scan the identifier starting at `i` (whose first character is a letter
/// or underscore): greedy over letters, digits and underscores.
fn scan_identifier(source: &str, i: usize, n: usize) -> (r: (Token, usize))
    requires
        n == source@.len(),
        i < n,
        is_ident_start(source@[i as int]),
    ensures
        i < r.1 <= n,
        r.1 as int == ident_end(source@, i + 1 as int),
        tok_view(r.0) == TokV::Id(source@.subrange(i as int, r.1 as int)),
{
    let ghost s = source@;
    let mut k: usize = i + 1;
    while k < n && is_ident_char_exec(source.get_char(k))
        invariant
            n == s.len(),
            source@ == s,
            i < k <= n,
            ident_end(s, i + 1 as int) == ident_end(s, k as int),
        decreases n - k,
    {
        k = k + 1;
    }
    proof {
        assert(ident_end(s, k as int) == k as int);
    }
    let j = k;
    let mut name = String::new();
    let mut k2: usize = i;
    while k2 < j
        invariant
            n == s.len(),
            source@ == s,
            i <= k2 <= j,
            j <= n,
            name@ == s.subrange(i as int, k2 as int),
        decreases j - k2,
    {
        let c = source.get_char(k2);
        push_char(&mut name, c);
        proof {
            assert(s.subrange(i as int, k2 + 1 as int) =~= s.subrange(i as int, k2 as int).push(
                s[k2 as int],
            ));
        }
        k2 = k2 + 1;
    }
    (Token::Identifier { name }, j)
}

/// Scan one token starting at `i`, skipping whitespace first; nothing left
/// but whitespace gives no token.
fn scan_one(source: &str, i: usize, n: usize) -> (r: Result<Option<(Token, usize)>, ScanError>)
    requires
        n == source@.len(),
        i <= n,
    ensures
        match r {
            Ok(Some((t, j))) => i < j <= n && spec_scan_from(source@, i as int) == cons_result(
                tok_view(t),
                spec_scan_from(source@, j as int),
            ),
            Ok(None) => spec_scan_from(source@, i as int) == Ok::<Seq<TokV>, ScanErrV>(
                Seq::empty(),
            ),
            Err(e) => spec_scan_from(source@, i as int) == Err::<Seq<TokV>, ScanErrV>(err_view(e)),
        },
    decreases n - i,
{
    if i >= n {
        return Ok(None);
    }
    let c = source.get_char(i);
    if c == ' ' || c == '\t' || c == '\r' || c == '\n' {
        scan_one(source, i + 1, n)
    } else if ('a' <= c && c <= 'z') || ('A' <= c && c <= 'Z') || c == '_' {
        proof {
            lemma_ident_end_bounds(source@, i + 1);
        }
        let (t, j) = scan_identifier(source, i, n);
        Ok(Some((t, j)))
    } else if c == '+' || c == '-' || c == '*' || c == '/' || c == '%' || c == '^' {
        let t = Token::Operator { operator: op_string(c) };
        Ok(Some((t, i + 1)))
    } else if c == '(' || c == ')' {
        let t = Token::Grouping { char_: c };
        Ok(Some((t, i + 1)))
    } else if '0' <= c && c <= '9' {
        proof {
            lemma_num_end_bounds(source@, i + 1);
        }
        match scan_number(source, i, n) {
            Ok((t, j)) => Ok(Some((t, j))),
            Err(e) => Err(e),
        }
    } else {
        Err(ScanError::UnexpectedCharacter(c))
    }
}

/// Scan the whole source into its token sequence, left to right, or abort
/// on the first unexpected character or invalid numeral.
pub fn scan(source: &str) -> (r: Result<Vec<Token>, ScanError>)
    ensures
        match r {
            Ok(ts) => spec_scan_from(source@, 0) == Ok::<Seq<TokV>, ScanErrV>(toks_view(ts@)),
            Err(e) => spec_scan_from(source@, 0) == Err::<Seq<TokV>, ScanErrV>(err_view(e)),
        },
{
    let ghost s = source@;
    let n = source.unicode_len();
    let mut tokens: Vec<Token> = Vec::new();
    let mut i: usize = 0;
    loop
        invariant
            n == s.len(),
            source@ == s,
            i <= n,
            spec_scan_from(s, 0) == (match spec_scan_from(s, i as int) {
                Ok(rest) => Ok::<Seq<TokV>, ScanErrV>(toks_view(tokens@) + rest),
                Err(e) => Err::<Seq<TokV>, ScanErrV>(e),
            }),
        decreases n - i,
    {
        match scan_one(source, i, n) {
            Ok(Some((t, j))) => {
                proof {
                    assert(toks_view(tokens@.push(t)) =~= toks_view(tokens@) + seq![tok_view(t)]);
                }
                let ghost old_toks = tokens@;
                tokens.push(t);
                proof {
                    match spec_scan_from(s, j as int) {
                        Ok(rest) => {
                            assert(toks_view(old_toks) + (seq![tok_view(t)] + rest) =~= toks_view(
                                tokens@,
                            ) + rest);
                        },
                        Err(_) => {},
                    }
                }
                i = j;
            },
            Ok(None) => {
                proof {
                    assert(toks_view(tokens@) + Seq::<TokV>::empty() =~= toks_view(tokens@));
                }
                return Ok(tokens);
            },
            Err(e) => {
                return Err(e);
            },
        }
    }
}

} // verus!
