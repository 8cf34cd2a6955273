use vstd::prelude::*;
use crate::clause::signed_codes;
use crate::clause::Clause;
use crate::clause::ClauseView;
use crate::conflict_analyzer::with;
use crate::literal::Literal;
use crate::literal::Sign;

verus! {

/// The error that the `dimacs` crate reports for a text that it cannot parse:
/// a place in the text and a kind.
#[verifier::external_type_specification]
#[verifier::external_body]
pub struct ExParseError(dimacs::ParseError);

/// The most digits that a literal's number may have here: the parser turns
/// the number into a signed value of 64 bits.
pub const MAX_LITERAL_DIGITS: usize = 18;

/// The most digits that the header's count of variables may have here: the
/// parser adds a number up digit by digit in 64 bits.
pub const MAX_COUNT_DIGITS: usize = 19;

/// The most digits that the header's count of clauses may have here: the
/// parser sets room aside for as many clauses as the header announces.
pub const MAX_CLAUSES_DIGITS: usize = 8;

/// The most opening brackets that a DIMACS text may hold outside its
/// comments here: the parser descends once for each level of brackets in a
/// formula.
pub const MAX_OPENS: usize = 1000;

/// The most comments that may follow one another in a DIMACS text here: the
/// parser's lexer descends once for each comment in a row.
pub const MAX_COMMENTS: usize = 4000;

/// Why a DIMACS text gave no clauses.
#[derive(Debug, PartialEq, Eq, Clone)]
pub enum ParseFailure {
    /// A number is longer than the parser can take, or the text holds more
    /// than `MAX_OPENS` opening brackets, or more than `MAX_COMMENTS`
    /// comments in a row.
    Unsupported,
    /// The text is not DIMACS; the parser's report is attached.
    Syntax(String),
    /// The text is DIMACS, but not of a formula in conjunctive normal form.
    NotCnf,
    /// A clause holds no literal.
    EmptyClause,
    /// A variable's number does not fit a literal.
    VariableOutOfRange,
}

pub open spec fn is_digit(c: char) -> bool {
    '0' <= c && c <= '9'
}

pub open spec fn is_letter(c: char) -> bool {
    ('a' <= c && c <= 'z') || ('A' <= c && c <= 'Z')
}

/// A character that stands between tokens and ends no run of comments: white
/// space of the ASCII range, or any character beyond that range.
pub open spec fn is_gap(c: char) -> bool {
    c == ' ' || ('\t' <= c && c <= '\r') || c > '\x7f'
}

/// How far a text has been scanned, as the parser's lexer would cut it into
/// tokens.
#[derive(Clone, Copy, PartialEq, Eq, Structural, Debug)]
pub struct Scan {
    /// No limit has been passed so far.
    pub ok: bool,
    /// The text has ended with a character of code 0.
    pub ended: bool,
    /// The scan is inside a comment, which runs to the end of the line.
    pub in_comment: bool,
    /// The word being read: 0 for none, 1 for `c`, 2 for `p`, 3 for `cn`, 4
    /// for `cnf`, 5 for any other.
    pub word: u8,
    /// The digits of the number being read so far; 0 outside a number.
    pub digits: usize,
    /// The most digits that the number being read may have.
    pub limit: usize,
    /// How far the header has been read: 0 before it, 1 after `p`, 2 after
    /// `cnf`, 3 after the count of variables, 4 after the header or once it
    /// is broken.
    pub header: u8,
    /// The opening brackets met outside comments.
    pub opens: usize,
    /// The comments met in a row.
    pub comments: usize,
}

/// The scan before the first character.
pub open spec fn scan_start() -> Scan {
    Scan {
        ok: true,
        ended: false,
        in_comment: false,
        word: 0,
        digits: 0,
        limit: 0,
        header: 0,
        opens: 0,
        comments: 0,
    }
}

/// A header that another token than the expected one has cut short.
pub open spec fn broken(header: u8) -> u8 {
    if 1 <= header && header <= 3 {
        4
    } else {
        header
    }
}

/// The word after one more letter or digit.
pub open spec fn longer(word: u8, c: char) -> u8 {
    if word == 1 && c == 'n' {
        3
    } else if word == 3 && c == 'f' {
        4
    } else {
        5
    }
}

/// The scan once the word being read has ended. The word `c` starts a
/// comment, `p` and `cnf` lead into the header.
pub open spec fn after_word(scan: Scan) -> Scan {
    if scan.word == 1 {
        if scan.comments >= MAX_COMMENTS {
            Scan { ok: false, ..scan }
        } else {
            Scan { word: 0, in_comment: true, comments: (scan.comments + 1) as usize, ..scan }
        }
    } else if scan.word == 2 {
        Scan {
            word: 0,
            comments: 0,
            header: if scan.header == 0 {
                1
            } else {
                broken(scan.header)
            },
            ..scan
        }
    } else if scan.word == 4 {
        Scan {
            word: 0,
            comments: 0,
            header: if scan.header == 1 {
                2
            } else {
                broken(scan.header)
            },
            ..scan
        }
    } else {
        Scan { word: 0, comments: 0, header: broken(scan.header), ..scan }
    }
}

/// The scan once the number being read has ended.
pub open spec fn after_number(scan: Scan) -> Scan {
    Scan {
        digits: 0,
        header: if scan.header == 2 {
            3
        } else if scan.header == 3 {
            4
        } else {
            broken(scan.header)
        },
        ..scan
    }
}

/// The scan after a character at which a token may start.
pub open spec fn token_start(scan: Scan, c: char) -> Scan {
    if is_gap(c) {
        scan
    } else if is_letter(c) {
        Scan {
            word: if c == 'c' {
                1
            } else if c == 'p' {
                2
            } else {
                5
            },
            ..scan
        }
    } else if '1' <= c && c <= '9' {
        Scan {
            digits: 1,
            limit: if scan.header == 2 {
                MAX_COUNT_DIGITS
            } else if scan.header == 3 {
                MAX_CLAUSES_DIGITS
            } else {
                MAX_LITERAL_DIGITS
            },
            comments: 0,
            ..scan
        }
    } else if c == '(' {
        if scan.opens >= MAX_OPENS {
            Scan { ok: false, ..scan }
        } else {
            Scan {
                opens: (scan.opens + 1) as usize,
                comments: 0,
                header: broken(scan.header),
                ..scan
            }
        }
    } else {
        Scan { comments: 0, header: broken(scan.header), ..scan }
    }
}

/// The scan after one more character.
pub open spec fn advanced(scan: Scan, c: char) -> Scan {
    if !scan.ok || scan.ended {
        scan
    } else if c == '\0' {
        Scan { ended: true, ..finished(scan) }
    } else if scan.in_comment {
        Scan { in_comment: c != '\n', ..scan }
    } else if scan.word != 0 {
        if is_letter(c) || is_digit(c) {
            Scan { word: longer(scan.word, c), ..scan }
        } else {
            let ended = after_word(scan);
            if !ended.ok {
                ended
            } else if ended.in_comment {
                Scan { in_comment: c != '\n', ..ended }
            } else {
                token_start(ended, c)
            }
        }
    } else if scan.digits != 0 {
        if is_digit(c) {
            if scan.digits >= scan.limit {
                Scan { ok: false, ..scan }
            } else {
                Scan { digits: (scan.digits + 1) as usize, ..scan }
            }
        } else {
            token_start(after_number(scan), c)
        }
    } else {
        token_start(scan, c)
    }
}

/// The scan at the end of the text: a word that is still being read ends
/// there.
pub open spec fn finished(scan: Scan) -> Scan {
    if scan.ok && !scan.ended && !scan.in_comment && scan.word != 0 {
        after_word(scan)
    } else {
        scan
    }
}

/// The scan after every character of a text.
pub open spec fn scanned(text: Seq<char>) -> Scan
    decreases text.len(),
{
    if text.len() == 0 {
        scan_start()
    } else {
        advanced(scanned(text.drop_last()), text.last())
    }
}

/// The text is one that the parser is handed. Outside comments, and up to a
/// character of code 0, where the parser stops reading: no literal's number
/// has more than `MAX_LITERAL_DIGITS` digits, the header's counts of
/// variables and of clauses have no more than `MAX_COUNT_DIGITS` and
/// `MAX_CLAUSES_DIGITS`, there are at most `MAX_OPENS` opening brackets, and
/// at most `MAX_COMMENTS` comments follow one another.
pub open spec fn parser_safe(text: Seq<char>) -> bool {
    finished(scanned(text)).ok
}

/// What the `dimacs` crate makes of a text: nothing where the text is not
/// DIMACS; otherwise the clauses of a formula in conjunctive normal form, each
/// literal as its sign and its variable, or `None` for a formula of another
/// kind.
pub uninterp spec fn dimacs_instance(content: Seq<char>) -> Option<Option<Seq<Seq<(Sign, u64)>>>>;

pub open spec fn rows_view(rows: Seq<Vec<(Sign, u64)>>) -> Seq<Seq<(Sign, u64)>> {
    rows.map_values(|row: Vec<(Sign, u64)>| row@)
}

/// `dimacs::parse_dimacs`: the instance that the crate reads from a text, its
/// clauses copied out literal by literal with `Lit::sign` and `Lit::var`. The
/// result is a function of the text alone.
#[verifier::external_body]
fn parse_instance(content: &str) -> (parsed: Result<Option<Vec<Vec<(Sign, u64)>>>, dimacs::ParseError>)
    requires
        parser_safe(content@),
    ensures
        match parsed {
            Ok(Some(rows)) => dimacs_instance(content@) == Some(Some(rows_view(rows@))),
            Ok(None) => dimacs_instance(content@) == Some(None::<Seq<Seq<(Sign, u64)>>>),
            Err(_) => dimacs_instance(content@) is None,
        },
{
    match dimacs::parse_dimacs(content) {
        Ok(dimacs::Instance::Cnf { clauses, .. }) => Ok(Some(clauses.iter().map(|clause|
            clause.lits().iter().map(|lit| (match lit.sign() {
                dimacs::Sign::Pos => Sign::Pos,
                dimacs::Sign::Neg => Sign::Neg,
            }, lit.var().to_u64())).collect()).collect())),
        Ok(dimacs::Instance::Sat { .. }) => Ok(None),
        Err(error) => Err(error),
    }
}

/// The `Debug` text of a `dimacs::ParseError`.
#[verifier::external_body]
fn describe(error: &dimacs::ParseError) -> (text: String) {
    format!("{:?}", error)
}

fn end_word(scan: Scan) -> (next: Scan)
    ensures
        next == after_word(scan),
{
    if scan.word == 1 {
        if scan.comments >= MAX_COMMENTS {
            Scan { ok: false, ..scan }
        } else {
            Scan { word: 0, in_comment: true, comments: scan.comments + 1, ..scan }
        }
    } else {
        let cut: u8 = if 1 <= scan.header && scan.header <= 3 {
            4
        } else {
            scan.header
        };
        let header: u8 = if scan.word == 2 && scan.header == 0 {
            1
        } else if scan.word == 4 && scan.header == 1 {
            2
        } else {
            cut
        };
        Scan { word: 0, comments: 0, header, ..scan }
    }
}

fn start_token(scan: Scan, c: char) -> (next: Scan)
    ensures
        next == token_start(scan, c),
{
    let cut: u8 = if 1 <= scan.header && scan.header <= 3 {
        4
    } else {
        scan.header
    };
    if c == ' ' || ('\t' <= c && c <= '\r') || c > '\x7f' {
        scan
    } else if ('a' <= c && c <= 'z') || ('A' <= c && c <= 'Z') {
        let word: u8 = if c == 'c' {
            1
        } else if c == 'p' {
            2
        } else {
            5
        };
        Scan { word, ..scan }
    } else if '1' <= c && c <= '9' {
        let limit: usize = if scan.header == 2 {
            MAX_COUNT_DIGITS
        } else if scan.header == 3 {
            MAX_CLAUSES_DIGITS
        } else {
            MAX_LITERAL_DIGITS
        };
        Scan { digits: 1, limit, comments: 0, ..scan }
    } else if c == '(' {
        if scan.opens >= MAX_OPENS {
            Scan { ok: false, ..scan }
        } else {
            Scan { opens: scan.opens + 1, comments: 0, header: cut, ..scan }
        }
    } else {
        Scan { comments: 0, header: cut, ..scan }
    }
}

fn finish(scan: Scan) -> (next: Scan)
    ensures
        next == finished(scan),
{
    if scan.ok && !scan.ended && !scan.in_comment && scan.word != 0 {
        end_word(scan)
    } else {
        scan
    }
}

fn advance(scan: Scan, c: char) -> (next: Scan)
    ensures
        next == advanced(scan, c),
{
    if !scan.ok || scan.ended {
        scan
    } else if c == '\0' {
        let closed = finish(scan);
        Scan { ended: true, ..closed }
    } else if scan.in_comment {
        Scan { in_comment: c != '\n', ..scan }
    } else if scan.word != 0 {
        let letter = ('a' <= c && c <= 'z') || ('A' <= c && c <= 'Z');
        let digit = '0' <= c && c <= '9';
        if letter || digit {
            let word: u8 = if scan.word == 1 && c == 'n' {
                3
            } else if scan.word == 3 && c == 'f' {
                4
            } else {
                5
            };
            Scan { word, ..scan }
        } else {
            let ended = end_word(scan);
            if !ended.ok {
                ended
            } else if ended.in_comment {
                Scan { in_comment: c != '\n', ..ended }
            } else {
                start_token(ended, c)
            }
        }
    } else if scan.digits != 0 {
        if '0' <= c && c <= '9' {
            if scan.digits >= scan.limit {
                Scan { ok: false, ..scan }
            } else {
                Scan { digits: scan.digits + 1, ..scan }
            }
        } else {
            let header: u8 = if scan.header == 2 {
                3
            } else if scan.header == 3 {
                4
            } else if 1 <= scan.header && scan.header <= 3 {
                4
            } else {
                scan.header
            };
            start_token(Scan { digits: 0, header, ..scan }, c)
        }
    } else {
        start_token(scan, c)
    }
}

/// Whether a text is one that the parser is handed.
pub fn parser_accepts(content: &str) -> (safe: bool)
    ensures
        safe == parser_safe(content@),
{
    broadcast use vstd::string::axiom_spec_iter;

    let mut scan = Scan {
        ok: true,
        ended: false,
        in_comment: false,
        word: 0,
        digits: 0,
        limit: 0,
        header: 0,
        opens: 0,
        comments: 0,
    };
    proof {
        assert(content@.take(0) =~= Seq::<char>::empty());
    }
    for c in it: content.chars()
        invariant
            it.seq() == content@,
            scan == scanned(content@.take(it.index() as int)),
    {
        proof {
            let done = content@.take(it.index() + 1);
            assert(done.drop_last() =~= content@.take(it.index() as int));
            assert(done.last() == c);
        }
        scan = advance(scan, c);
    }
    proof {
        assert(content@.take(content@.len() as int) =~= content@);
    }
    finish(scan).ok
}

/// A sequence without the repetitions of its items: each item where it comes
/// first.
pub open spec fn distinct(items: Seq<i32>) -> Seq<i32>
    decreases items.len(),
{
    if items.len() == 0 {
        items
    } else {
        with(distinct(items.drop_last()), items.last())
    }
}

/// A sequence of clauses with one more, unless it holds a clause of the same
/// literals already.
pub open spec fn with_row(rows: Seq<Seq<i32>>, row: Seq<i32>) -> Seq<Seq<i32>> {
    if rows.contains(row) {
        rows
    } else {
        rows.push(row)
    }
}

/// The clauses of a DIMACS formula: no literal twice in a clause, and no
/// clause twice.
pub open spec fn distinct_rows(rows: Seq<Seq<(Sign, u64)>>) -> Seq<Seq<i32>>
    decreases rows.len(),
{
    if rows.len() == 0 {
        Seq::empty()
    } else {
        with_row(distinct_rows(rows.drop_last()), distinct(signed_codes(rows.last())))
    }
}

/// A clause as it is first watched: on its first two literals, or on its only
/// one.
pub open spec fn fresh_clause(lits: Seq<i32>) -> ClauseView {
    ClauseView {
        lits,
        first: lits[0],
        second: if lits.len() > 1 {
            Some(lits[1])
        } else {
            None
        },
    }
}

/// The formula can be turned into clauses: no clause of it is empty, and
/// every variable fits a literal.
pub open spec fn rows_fit(rows: Seq<Seq<(Sign, u64)>>) -> bool {
    forall|i: int|
        0 <= i < rows.len() ==> (#[trigger] rows[i]).len() > 0 && forall|j: int|
            0 <= j < rows[i].len() ==> (#[trigger] rows[i][j]).1 <= i32::MAX
}

pub open spec fn views(clauses: Seq<Clause>) -> Seq<ClauseView> {
    clauses.map_values(|c: Clause| c@)
}

proof fn lemma_distinct(items: Seq<i32>)
    ensures
        distinct(items).no_duplicates(),
        items.len() > 0 ==> distinct(items).len() > 0,
        forall|c: i32| #[trigger] distinct(items).contains(c) ==> items.contains(c),
    decreases items.len(),
{
    if items.len() > 0 {
        let front = items.drop_last();
        lemma_distinct(front);
        let out = distinct(items);
        assert forall|c: i32| #[trigger] out.contains(c) implies items.contains(c) by {
            let k = choose|k: int| 0 <= k < out.len() && out[k] == c;
            if k < distinct(front).len() {
                assert(distinct(front)[k] == c);
                assert(distinct(front).contains(c));
                assert(front.contains(c));
                let i = choose|i: int| 0 <= i < front.len() && front[i] == c;
                assert(items[i] == c);
            } else {
                assert(items[items.len() - 1] == c);
            }
        }
    }
}

/// The literals of one DIMACS clause, each where it comes first.
fn distinct_lits(row: &Vec<(Sign, u64)>) -> (kept: Vec<(Sign, u64)>)
    requires
        forall|j: int| 0 <= j < row@.len() ==> (#[trigger] row@[j]).1 <= i32::MAX,
    ensures
        signed_codes(kept@) == distinct(signed_codes(row@)),
        forall|j: int| 0 <= j < kept@.len() ==> (#[trigger] kept@[j]).1 <= i32::MAX,
{
    let mut kept: Vec<(Sign, u64)> = Vec::new();
    let mut i: usize = 0;
    proof {
        assert(signed_codes(kept@) =~= distinct(signed_codes(row@).take(0)));
    }
    while i < row.len()
        invariant
            i <= row@.len(),
            forall|j: int| 0 <= j < row@.len() ==> (#[trigger] row@[j]).1 <= i32::MAX,
            forall|j: int| 0 <= j < kept@.len() ==> (#[trigger] kept@[j]).1 <= i32::MAX,
            signed_codes(kept@) == distinct(signed_codes(row@).take(i as int)),
        decreases row@.len() - i,
    {
        let (sign, var) = row[i];
        let code = Literal::from_dimacs_lit(sign, var).code();
        let mut found = false;
        let mut k: usize = 0;
        while k < kept.len()
            invariant
                k <= kept@.len(),
                forall|j: int| 0 <= j < kept@.len() ==> (#[trigger] kept@[j]).1 <= i32::MAX,
                found == exists|j: int| 0 <= j < k && signed_codes(kept@)[j] == code,
            decreases kept@.len() - k,
        {
            let (other_sign, other_var) = kept[k];
            if Literal::from_dimacs_lit(other_sign, other_var).code() == code {
                found = true;
                assert(signed_codes(kept@)[k as int] == code);
            }
            k = k + 1;
        }
        let ghost before = signed_codes(kept@);
        if !found {
            kept.push((sign, var));
            proof {
                assert(signed_codes(kept@) =~= before.push(code));
            }
        }
        i = i + 1;
        proof {
            let done = signed_codes(row@).take(i as int);
            assert(done.drop_last() =~= signed_codes(row@).take(i - 1));
            assert(done.last() == code);
        }
    }
    proof {
        assert(signed_codes(row@).take(i as int) =~= signed_codes(row@));
    }
    kept
}

/// Whether two clauses hold the same literals in the same order.
fn same_literals(a: &Clause, b: &Clause) -> (same: bool)
    ensures
        same == (a@.lits == b@.lits),
{
    let left = a.lits();
    let right = b.lits();
    if left.len() != right.len() {
        proof {
            assert(a@.lits.len() == left@.len());
            assert(b@.lits.len() == right@.len());
        }
        return false;
    }
    let mut i: usize = 0;
    while i < left.len()
        invariant
            i <= left@.len(),
            left@.len() == right@.len(),
            crate::clause::codes(left@) == a@.lits,
            crate::clause::codes(right@) == b@.lits,
            forall|j: int| 0 <= j < i ==> a@.lits[j] == b@.lits[j],
        decreases left@.len() - i,
    {
        if left[i].code() != right[i].code() {
            assert(a@.lits[i as int] != b@.lits[i as int]);
            return false;
        }
        i = i + 1;
    }
    proof {
        assert(a@.lits =~= b@.lits);
    }
    true
}

/// The clauses of a DIMACS formula, in the order of the text: a literal that
/// a clause repeats is dropped, and so is a clause that repeats an earlier
/// one.
///
/// The clauses are gathered in a vector and compared literal by literal. A
/// hash set of clauses would drop the same repeats, but would hand the
/// clauses out in an order of its own, and would rest on the hash and the
/// equality of a clause, of which nothing is proved; the ids that a solver
/// gives the clauses, and with them its decisions, follow the order here.
pub fn clauses_from_dimacs(rows: &Vec<Vec<(Sign, u64)>>) -> (clauses: Vec<Clause>)
    requires
        rows_fit(rows_view(rows@)),
    ensures
        views(clauses@) == distinct_rows(rows_view(rows@)).map_values(|lits: Seq<i32>| fresh_clause(lits)),
        forall|i: int| 0 <= i < clauses@.len() ==> (#[trigger] clauses@[i])@.wf(),
{
    let ghost all = rows_view(rows@);
    let mut clauses: Vec<Clause> = Vec::new();
    let mut i: usize = 0;
    proof {
        assert(views(clauses@) =~= distinct_rows(all.take(0)).map_values(
            |lits: Seq<i32>| fresh_clause(lits),
        ));
    }
    while i < rows.len()
        invariant
            i <= rows@.len(),
            all == rows_view(rows@),
            rows_fit(all),
            views(clauses@) == distinct_rows(all.take(i as int)).map_values(
                |lits: Seq<i32>| fresh_clause(lits),
            ),
            forall|k: int| 0 <= k < clauses@.len() ==> (#[trigger] clauses@[k])@.wf(),
        decreases rows@.len() - i,
    {
        let row = &rows[i];
        proof {
            assert(all[i as int] == row@);
            assert(all[i as int].len() > 0);
            assert forall|j: int| 0 <= j < row@.len() implies (#[trigger] row@[j]).1 <= i32::MAX by {
                assert(all[i as int][j].1 <= i32::MAX);
            }
            lemma_distinct(signed_codes(row@));
        }
        let lits = distinct_lits(row);
        let clause = Clause::from_dimacs_clause(lits.as_slice());
        let ghost earlier = distinct_rows(all.take(i as int));
        let mut found = false;
        let mut k: usize = 0;
        proof {
            assert(views(clauses@).len() == clauses@.len());
        }
        while k < clauses.len()
            invariant
                k <= clauses@.len(),
                earlier.len() == clauses@.len(),
                views(clauses@) == earlier.map_values(|lits: Seq<i32>| fresh_clause(lits)),
                found == exists|j: int| 0 <= j < k && earlier[j] == clause@.lits,
            decreases clauses@.len() - k,
        {
            proof {
                assert(views(clauses@)[k as int] == clauses@[k as int]@);
                assert(views(clauses@)[k as int] == fresh_clause(earlier[k as int]));
            }
            if same_literals(&clauses[k], &clause) {
                found = true;
            }
            k = k + 1;
        }
        if !found {
            let ghost before = views(clauses@);
            proof {
                assert(clause@ == fresh_clause(clause@.lits));
            }
            clauses.push(clause);
            proof {
                assert(views(clauses@) =~= before.push(fresh_clause(clause@.lits)));
                assert(views(clauses@) =~= earlier.push(clause@.lits).map_values(
                    |lits: Seq<i32>| fresh_clause(lits),
                ));
            }
        }
        i = i + 1;
        proof {
            let done = all.take(i as int);
            assert(done.drop_last() =~= all.take(i - 1));
            assert(done.last() == row@);
        }
    }
    proof {
        assert(all.take(i as int) =~= all);
    }
    clauses
}

/// Whether a DIMACS formula can be turned into clauses, and if not, why.
fn check_rows(rows: &Vec<Vec<(Sign, u64)>>) -> (failure: Option<ParseFailure>)
    ensures
        failure == why_not(rows_view(rows@)),
{
    let ghost all = rows_view(rows@);
    let mut i: usize = 0;
    while i < rows.len()
        invariant
            i <= rows@.len(),
            all == rows_view(rows@),
            why_not(all.take(i as int)) is None,
        decreases rows@.len() - i,
    {
        let row = &rows[i];
        proof {
            let done = all.take(i + 1);
            assert(done.drop_last() =~= all.take(i as int));
            assert(done.last() == row@);
        }
        if row.len() == 0 {
            proof {
                lemma_why_not_stays(all, i + 1);
            }
            return Some(ParseFailure::EmptyClause);
        }
        let mut j: usize = 0;
        while j < row.len()
            invariant
                j <= row@.len(),
                i < rows@.len(),
                all == rows_view(rows@),
                row@.len() > 0,
                all.take(i + 1).last() == row@,
                why_not(all.take(i + 1).drop_last()) is None,
                forall|k: int| 0 <= k < j ==> (#[trigger] row@[k]).1 <= i32::MAX,
            decreases row@.len() - j,
        {
            if row[j].1 > 0x7fff_ffff {
                proof {
                    assert(!row_fits(row@));
                    lemma_why_not_stays(all, i + 1);
                }
                return Some(ParseFailure::VariableOutOfRange);
            }
            j = j + 1;
        }
        proof {
            assert(row_fits(row@));
        }
        i = i + 1;
    }
    proof {
        assert(all.take(i as int) =~= all);
    }
    None
}

/// Every variable of a clause fits a literal.
pub open spec fn row_fits(row: Seq<(Sign, u64)>) -> bool {
    forall|j: int| 0 <= j < row.len() ==> (#[trigger] row[j]).1 <= i32::MAX
}

/// Why a DIMACS formula cannot be turned into clauses: the fault of its first
/// clause that has one, an empty clause before a variable that does not fit.
pub open spec fn why_not(rows: Seq<Seq<(Sign, u64)>>) -> Option<ParseFailure>
    decreases rows.len(),
{
    if rows.len() == 0 {
        None
    } else if why_not(rows.drop_last()) is Some {
        why_not(rows.drop_last())
    } else if rows.last().len() == 0 {
        Some(ParseFailure::EmptyClause)
    } else if !row_fits(rows.last()) {
        Some(ParseFailure::VariableOutOfRange)
    } else {
        None
    }
}

proof fn lemma_why_not_stays(rows: Seq<Seq<(Sign, u64)>>, n: int)
    requires
        0 <= n <= rows.len(),
        why_not(rows.take(n)) is Some,
    ensures
        why_not(rows) == why_not(rows.take(n)),
    decreases rows.len() - n,
{
    if n < rows.len() {
        assert(rows.take(n + 1).drop_last() =~= rows.take(n));
        lemma_why_not_stays(rows, n + 1);
    } else {
        assert(rows.take(n) =~= rows);
    }
}

proof fn lemma_no_fault_fits(rows: Seq<Seq<(Sign, u64)>>)
    requires
        why_not(rows) is None,
    ensures
        rows_fit(rows),
    decreases rows.len(),
{
    if rows.len() > 0 {
        lemma_no_fault_fits(rows.drop_last());
        assert forall|i: int| 0 <= i < rows.len() implies (#[trigger] rows[i]).len() > 0 && forall|
            j: int,
        | 0 <= j < rows[i].len() ==> (#[trigger] rows[i][j]).1 <= i32::MAX by {
            if i < rows.len() - 1 {
                assert(rows.drop_last()[i] == rows[i]);
            }
        }
    }
}

/// The clauses that a parsed DIMACS text gives, or why it gives none.
pub fn clauses_of_instance(parsed: Option<Vec<Vec<(Sign, u64)>>>) -> (clauses: Result<
    Vec<Clause>,
    ParseFailure,
>)
    ensures
        match parsed {
            None => clauses == Err::<Vec<Clause>, ParseFailure>(ParseFailure::NotCnf),
            Some(rows) => match why_not(rows_view(rows@)) {
                Some(failure) => clauses == Err::<Vec<Clause>, ParseFailure>(failure),
                None => clauses is Ok && views(clauses->Ok_0@) == distinct_rows(
                    rows_view(rows@),
                ).map_values(|lits: Seq<i32>| fresh_clause(lits)),
            },
        },
        clauses is Ok ==> forall|i: int|
            0 <= i < clauses->Ok_0@.len() ==> (#[trigger] clauses->Ok_0@[i])@.wf(),
{
    match parsed {
        None => Err(ParseFailure::NotCnf),
        Some(rows) => match check_rows(&rows) {
            Some(failure) => Err(failure),
            None => {
                proof {
                    lemma_no_fault_fits(rows_view(rows@));
                }
                Ok(clauses_from_dimacs(&rows))
            },
        },
    }
}

/// The clauses of a DIMACS text.
pub fn parse_dimacs(content: &str) -> (clauses: Result<Vec<Clause>, ParseFailure>)
    ensures
        !parser_safe(content@) ==> clauses == Err::<Vec<Clause>, ParseFailure>(
            ParseFailure::Unsupported,
        ),
        parser_safe(content@) ==> match dimacs_instance(content@) {
            None => clauses is Err && clauses->Err_0 is Syntax,
            Some(None) => clauses == Err::<Vec<Clause>, ParseFailure>(ParseFailure::NotCnf),
            Some(Some(rows)) => match why_not(rows) {
                Some(failure) => clauses == Err::<Vec<Clause>, ParseFailure>(failure),
                None => clauses is Ok && views(clauses->Ok_0@) == distinct_rows(rows).map_values(
                    |lits: Seq<i32>| fresh_clause(lits),
                ),
            },
        },
        clauses is Ok ==> forall|i: int|
            0 <= i < clauses->Ok_0@.len() ==> (#[trigger] clauses->Ok_0@[i])@.wf(),
{
    if !parser_accepts(content) {
        return Err(ParseFailure::Unsupported);
    }
    match parse_instance(content) {
        Err(error) => Err(ParseFailure::Syntax(describe(&error))),
        Ok(parsed) => clauses_of_instance(parsed),
    }
}

} // verus!
