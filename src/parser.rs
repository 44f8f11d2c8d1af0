use crate::command::push_char;
use crate::error::ShellError;
use vstd::prelude::*;

verus! {

/// One stage of a pipeline: a program name and its arguments.
#[derive(Debug, Clone)]
pub struct Command {
    pub program: String,
    pub args: Vec<String>,
}

/// What a `Command` holds, as mathematical text.
pub struct CommandModel {
    pub program: Seq<char>,
    pub args: Seq<Seq<char>>,
}

impl View for Command {
    type V = CommandModel;

    open spec fn view(&self) -> CommandModel {
        CommandModel { program: self.program@, args: words_view(self.args@) }
    }
}

/// The text of each string, in order.
pub open spec fn words_view(v: Seq<String>) -> Seq<Seq<char>> {
    v.map_values(|x: String| x@)
}

/// The commands of a pipeline, as models.
pub open spec fn commands_view(cmds: Seq<Command>) -> Seq<CommandModel> {
    cmds.map_values(|c: Command| c@)
}

/// The ways a line can be malformed.
#[derive(Debug, Clone, Copy, PartialEq, Eq, Structural)]
pub enum ParseFailure {
    UnclosedQuote,
    PipeWithoutCommand,
    PipeWithoutFollowingCommand,
    NoCommand,
}

/// The diagnostic text of each parse failure.
pub open spec fn failure_text(f: ParseFailure) -> Seq<char> {
    match f {
        ParseFailure::UnclosedQuote => "unclosed quote"@,
        ParseFailure::PipeWithoutCommand => "pipe with no preceding command"@,
        ParseFailure::PipeWithoutFollowingCommand => "pipe with no following command"@,
        ParseFailure::NoCommand => "no valid command found"@,
    }
}

impl ParseFailure {
    /// The error that reports this failure.
    pub fn to_error(self) -> (r: ShellError)
        ensures
            r is ParseError,
            r->ParseError_0@ == failure_text(self),
    {
        let text = match self {
            ParseFailure::UnclosedQuote => String::from_str("unclosed quote"),
            ParseFailure::PipeWithoutCommand => String::from_str("pipe with no preceding command"),
            ParseFailure::PipeWithoutFollowingCommand => String::from_str(
                "pipe with no following command",
            ),
            ParseFailure::NoCommand => String::from_str("no valid command found"),
        };
        ShellError::ParseError(text)
    }
}

/// The characters with Unicode's White_Space property.
pub open spec fn is_ws(c: char) -> bool {
    let u = c as u32;
    (0x9 <= u && u <= 0xd) || u == 0x20 || u == 0x85 || u == 0xa0 || u == 0x1680 || (0x2000
        <= u && u <= 0x200a) || u == 0x2028 || u == 0x2029 || u == 0x202f || u == 0x205f || u
        == 0x3000
}

/// Whether `c` separates tokens.
pub fn is_whitespace_char(c: char) -> (r: bool)
    ensures
        r == is_ws(c),
{
    let u = c as u32;
    (0x9 <= u && u <= 0xd) || u == 0x20 || u == 0x85 || u == 0xa0 || u == 0x1680 || (0x2000
        <= u && u <= 0x200a) || u == 0x2028 || u == 0x2029 || u == 0x202f || u == 0x205f || u
        == 0x3000
}

/// A token: a word (quotes removed) or an unquoted pipe symbol.
pub enum TokenModel {
    Word(Seq<char>),
    Pipe,
}

/// The outcome of scanning for the next token.
pub enum ScanModel {
    /// No more tokens.
    End,
    /// Input ended inside a quoted region.
    Unclosed,
    /// A token, and the position where scanning resumes.
    Found(TokenModel, int),
}

/// The first position at or after `i` that does not hold whitespace.
pub open spec fn skip_ws(s: Seq<char>, i: int) -> int
    decreases s.len() - i,
{
    if 0 <= i < s.len() && is_ws(s[i]) {
        skip_ws(s, i + 1)
    } else {
        i
    }
}

/// How a token scan ends at the end of input, having collected `tok`: a
/// word if anything was collected, else the end of the token stream.
pub open spec fn scan_finish(j: int, tok: Seq<char>) -> ScanModel {
    if tok.len() > 0 {
        ScanModel::Found(TokenModel::Word(tok), j)
    } else {
        ScanModel::End
    }
}

pub open spec fn is_quote(c: char) -> bool {
    c == '"' || c == '\''
}

/// Scans a token from position `i`, inside the quoted region opened by
/// `quote` if there is one, having collected `tok` so far. Unquoted
/// whitespace ends a word; an empty quoted region (`""`) collects nothing, so
/// when whitespace follows it the scan goes on to the next token.
pub open spec fn scan_from(s: Seq<char>, i: int, quote: Option<char>, tok: Seq<char>) -> ScanModel
    decreases s.len() - i,
{
    if i < 0 || i >= s.len() {
        if quote is Some {
            ScanModel::Unclosed
        } else {
            scan_finish(i, tok)
        }
    } else {
        let c = s[i];
        if quote is None && is_ws(c) {
            if tok.len() > 0 {
                ScanModel::Found(TokenModel::Word(tok), i + 1)
            } else {
                scan_from(s, i + 1, None, tok)
            }
        } else if quote is None && is_quote(c) {
            scan_from(s, i + 1, Some(c), tok)
        } else if quote == Some(c) {
            scan_from(s, i + 1, None, tok)
        } else if quote is None && c == '|' {
            if tok.len() == 0 {
                ScanModel::Found(TokenModel::Pipe, i + 1)
            } else {
                ScanModel::Found(TokenModel::Word(tok), i)
            }
        } else {
            scan_from(s, i + 1, quote, tok.push(c))
        }
    }
}

/// The next token at or after position `i`.
pub open spec fn next_token(s: Seq<char>, i: int) -> ScanModel {
    scan_from(s, skip_ws(s, i), None, Seq::empty())
}

pub open spec fn command_of(parts: Seq<Seq<char>>) -> CommandModel {
    CommandModel { program: parts[0], args: parts.drop_first() }
}

/// Assembles the commands from position `i` on, with `cur` the words of the
/// stage being collected and `cmds` the stages already closed by a pipe.
pub open spec fn parse_from(
    s: Seq<char>,
    i: int,
    cur: Seq<Seq<char>>,
    cmds: Seq<CommandModel>,
) -> Result<Seq<CommandModel>, ParseFailure>
    decreases s.len() - i,
    via parse_from_decreases
{
    match next_token(s, i) {
        ScanModel::Unclosed => Err(ParseFailure::UnclosedQuote),
        ScanModel::End => {
            if cur.len() > 0 {
                Ok(cmds.push(command_of(cur)))
            } else if cmds.len() > 0 {
                Err(ParseFailure::PipeWithoutFollowingCommand)
            } else {
                Err(ParseFailure::NoCommand)
            }
        },
        ScanModel::Found(TokenModel::Pipe, j) => {
            if cur.len() == 0 {
                Err(ParseFailure::PipeWithoutCommand)
            } else {
                parse_from(s, j, Seq::empty(), cmds.push(command_of(cur)))
            }
        },
        ScanModel::Found(TokenModel::Word(w), j) => parse_from(s, j, cur.push(w), cmds),
    }
}

#[via_fn]
proof fn parse_from_decreases(
    s: Seq<char>,
    i: int,
    cur: Seq<Seq<char>>,
    cmds: Seq<CommandModel>,
) {
    lemma_next_token_advances(s, i);
}

proof fn lemma_skip_ws_bounds(s: Seq<char>, i: int)
    ensures
        skip_ws(s, i) >= i,
        i <= s.len() ==> skip_ws(s, i) <= s.len(),
    decreases s.len() - i,
{
    if 0 <= i < s.len() && is_ws(s[i]) {
        lemma_skip_ws_bounds(s, i + 1);
    }
}

proof fn lemma_scan_bounds(s: Seq<char>, i: int, quote: Option<char>, tok: Seq<char>)
    requires
        i <= s.len(),
    ensures
        scan_from(s, i, quote, tok) matches ScanModel::Found(_, j) ==> j <= s.len() && j >= i
            && (tok.len() == 0 ==> j > i),
    decreases s.len() - i,
{
    if 0 <= i < s.len() {
        lemma_scan_bounds(s, i + 1, Some(s[i]), tok);
        lemma_scan_bounds(s, i + 1, None, tok);
        lemma_scan_bounds(s, i + 1, quote, tok.push(s[i]));
    }
}

/// A token found by the scan starts a position that lies ahead.
pub proof fn lemma_next_token_advances(s: Seq<char>, i: int)
    ensures
        next_token(s, i) matches ScanModel::Found(_, j) ==> i < j <= s.len(),
{
    lemma_skip_ws_bounds(s, i);
    if skip_ws(s, i) <= s.len() {
        lemma_scan_bounds(s, skip_ws(s, i), None, Seq::empty());
    }
}

proof fn lemma_skip_ws_spans_whitespace(s: Seq<char>, i: int)
    requires
        0 <= i,
    ensures
        forall|k: int| i <= k < skip_ws(s, i) ==> is_ws(#[trigger] s[k]),
    decreases s.len() - i,
{
    if 0 <= i < s.len() && is_ws(s[i]) {
        lemma_skip_ws_spans_whitespace(s, i + 1);
    }
}

proof fn lemma_scan_end_exhausted(s: Seq<char>, i: int, quote: Option<char>, tok: Seq<char>)
    requires
        0 <= i,
        quote matches Some(q) ==> is_quote(q),
    ensures
        scan_from(s, i, quote, tok) is End ==> tok.len() == 0 && forall|k: int|
            i <= k < s.len() ==> is_ws(#[trigger] s[k]) || is_quote(s[k]),
    decreases s.len() - i,
{
    if i < s.len() {
        let c = s[i];
        if is_quote(c) {
            lemma_scan_end_exhausted(s, i + 1, Some(c), tok);
        }
        lemma_scan_end_exhausted(s, i + 1, None, tok);
        lemma_scan_end_exhausted(s, i + 1, quote, tok.push(c));
        if scan_from(s, i, quote, tok) is End {
            assert forall|k: int| i <= k < s.len() implies is_ws(#[trigger] s[k]) || is_quote(
                s[k],
            ) by {
                if k > i {
                } else {
                    if quote is None && is_ws(c) {
                    } else if quote is None && is_quote(c) {
                    } else if quote == Some(c) {
                    } else {
                        assert(tok.push(c).len() > 0);
                    }
                }
            }
        }
    }
}

/// The token stream ends only where the rest of the line holds nothing but
/// whitespace and quote characters (empty quoted regions): no word and no
/// pipe symbol is ever left unread.
pub proof fn lemma_end_only_when_exhausted(s: Seq<char>, i: int)
    requires
        0 <= i,
    ensures
        next_token(s, i) is End ==> forall|k: int|
            i <= k < s.len() ==> is_ws(#[trigger] s[k]) || is_quote(s[k]),
{
    lemma_skip_ws_bounds(s, i);
    lemma_skip_ws_spans_whitespace(s, i);
    lemma_scan_end_exhausted(s, skip_ws(s, i), None, Seq::empty());
}

/// What a line parses to: the pipeline's commands, or why it is malformed.
pub open spec fn parse_model(s: Seq<char>) -> Result<Seq<CommandModel>, ParseFailure> {
    parse_from(s, 0, Seq::empty(), Seq::empty())
}


/// A token of the line: a word, quotes removed, or an unquoted pipe symbol.
pub enum Token {
    Word(String),
    Pipe,
}

impl View for Token {
    type V = TokenModel;

    open spec fn view(&self) -> TokenModel {
        match self {
            Token::Word(w) => TokenModel::Word(w@),
            Token::Pipe => TokenModel::Pipe,
        }
    }
}

/// The scan result in the form the executable scan returns it.
pub open spec fn scan_result_matches(
    r: Result<Option<(Token, usize)>, ParseFailure>,
    m: ScanModel,
) -> bool {
    match m {
        ScanModel::Unclosed => r == Err::<Option<(Token, usize)>, ParseFailure>(
            ParseFailure::UnclosedQuote,
        ),
        ScanModel::End => r matches Ok(None),
        ScanModel::Found(t, j) => r matches Ok(Some((tok, k))) && tok@ == t && k == j,
    }
}


/// The characters of `input`, in order.
fn chars_of(input: &str) -> (r: Vec<char>)
    ensures
        r@ == input@,
{
    let n = input.unicode_len();
    let mut r: Vec<char> = Vec::new();
    let mut i: usize = 0;
    while i < n
        invariant
            n == input@.len(),
            i <= n,
            r@ == input@.subrange(0, i as int),
        decreases n - i,
    {
        r.push(input.get_char(i));
        i = i + 1;
    }
    r
}

/// Skips the whitespace that starts at `pos`.
fn skip_whitespace(chars: &Vec<char>, pos: usize) -> (r: usize)
    requires
        pos <= chars.len(),
    ensures
        r == skip_ws(chars@, pos as int),
        pos <= r <= chars.len(),
{
    let mut i = pos;
    while i < chars.len() && is_whitespace_char(chars[i])
        invariant
            pos <= i <= chars.len(),
            skip_ws(chars@, i as int) == skip_ws(chars@, pos as int),
        decreases chars.len() - i,
    {
        i = i + 1;
    }
    i
}

/// Reads the token that starts at or after `start`, and the position where
/// the next scan resumes.
fn parse_token(chars: &Vec<char>, start: usize) -> (r: Result<Option<(Token, usize)>, ParseFailure>)
    requires
        start <= chars.len(),
    ensures
        scan_result_matches(r, next_token(chars@, start as int)),
        r matches Ok(None) ==> forall|k: int|
            start <= k < chars.len() ==> is_ws(#[trigger] chars@[k]) || is_quote(chars@[k]),
{
    proof {
        lemma_end_only_when_exhausted(chars@, start as int);
    }
    let mut i = skip_whitespace(chars, start);
    let mut token = String::new();
    let mut quote: Option<char> = None;
    while i < chars.len()
        invariant
            i <= chars.len(),
            scan_from(chars@, i as int, quote, token@) == next_token(chars@, start as int),
        decreases chars.len() - i,
    {
        let c = chars[i];
        let closes = match quote {
            Some(q) => q == c,
            None => false,
        };
        if quote.is_none() && is_whitespace_char(c) {
            if !token.as_str().is_empty() {
                return Ok(Some((Token::Word(token), i + 1)));
            }
        } else if quote.is_none() && (c == '"' || c == '\'') {
            quote = Some(c);
        } else if closes {
            quote = None;
        } else if quote.is_none() && c == '|' {
            if token.as_str().is_empty() {
                return Ok(Some((Token::Pipe, i + 1)));
            } else {
                return Ok(Some((Token::Word(token), i)));
            }
        } else {
            push_char(&mut token, c);
        }
        i = i + 1;
    }
    if quote.is_some() {
        return Err(ParseFailure::UnclosedQuote);
    }
    if token.as_str().is_empty() {
        Ok(None)
    } else {
        Ok(Some((Token::Word(token), i)))
    }
}

/// Builds a command from the words of one stage: the first names the
/// program, the rest are its arguments.
fn create_command_from_parts(parts: &Vec<String>) -> (r: Result<Command, ShellError>)
    ensures
        parts.len() == 0 ==> (r matches Err(ShellError::ParseError(m)) && m@ == "empty command"@),
        parts.len() > 0 ==> (r matches Ok(c) && c@ == command_of(words_view(parts@))),
{
    if parts.len() == 0 {
        return Err(ShellError::ParseError(String::from_str("empty command")));
    }
    let program = parts[0].clone();
    let mut args: Vec<String> = Vec::new();
    let mut i: usize = 1;
    while i < parts.len()
        invariant
            1 <= i <= parts.len(),
            program@ == parts@[0]@,
            words_view(args@) =~= words_view(parts@).subrange(1, i as int),
        decreases parts.len() - i,
    {
        let a = parts[i].clone();
        proof {
            assert(words_view(args@.push(a)) =~= words_view(args@).push(a@));
        }
        args.push(a);
        i = i + 1;
    }
    proof {
        assert(words_view(args@) =~= words_view(parts@).drop_first());
    }
    Ok(Command { program, args })
}

/// Splits a line into the commands of a pipeline.
///
/// Tokens are separated by whitespace; a quoted region (`"..."` or `'...'`)
/// is taken literally, quotes removed, and an unquoted `|` separates stages.
/// A pipe with no stage before or after it, an unclosed quote and a line with
/// no command at all are parse errors.
pub fn parse_input(input: &str) -> (r: Result<Vec<Command>, ShellError>)
    ensures
        match parse_model(input@) {
            Ok(cmds) => r matches Ok(v) && commands_view(v@) == cmds,
            Err(f) => r matches Err(ShellError::ParseError(m)) && m@ == failure_text(f),
        },
        r matches Ok(v) ==> v.len() > 0 && programs_nonempty(commands_view(v@)),
{
    proof {
        lemma_parsed_pipeline_is_well_formed(input@);
    }
    let chars = chars_of(input);
    let mut commands: Vec<Command> = Vec::new();
    let mut current: Vec<String> = Vec::new();
    let mut pos: usize = 0;
    proof {
        assert(words_view(current@) =~= Seq::<Seq<char>>::empty());
        assert(commands_view(commands@) =~= Seq::<CommandModel>::empty());
    }
    loop
        invariant
            chars@ == input@,
            pos <= chars.len(),
            parse_from(chars@, pos as int, words_view(current@), commands_view(commands@))
                == parse_model(input@),
        ensures
            chars@ == input@,
            pos <= chars.len(),
            parse_from(chars@, pos as int, words_view(current@), commands_view(commands@))
                == parse_model(input@),
            next_token(chars@, pos as int) is End,
        decreases chars.len() - pos,
    {
        proof {
            lemma_next_token_advances(chars@, pos as int);
        }
        match parse_token(&chars, pos) {
            Err(f) => {
                return Err(f.to_error());
            },
            Ok(None) => {
                break ;
            },
            Ok(Some((Token::Pipe, next))) => {
                if current.len() == 0 {
                    return Err(ParseFailure::PipeWithoutCommand.to_error());
                }
                match create_command_from_parts(&current) {
                    Ok(command) => {
                        proof {
                            assert(commands_view(commands@.push(command)) =~= commands_view(
                                commands@,
                            ).push(command@));
                        }
                        commands.push(command);
                    },
                    Err(e) => {
                        return Err(e);
                    },
                }
                current = Vec::new();
                proof {
                    assert(words_view(current@) =~= Seq::<Seq<char>>::empty());
                }
                pos = next;
            },
            Ok(Some((Token::Word(w), next))) => {
                proof {
                    assert(words_view(current@).push(w@) =~= current@.push(w).map_values(
                        |x: String| x@,
                    ));
                }
                current.push(w);
                pos = next;
            },
        }
    }
    if current.len() > 0 {
        match create_command_from_parts(&current) {
            Ok(command) => {
                proof {
                    assert(commands_view(commands@.push(command)) =~= commands_view(
                        commands@,
                    ).push(command@));
                }
                commands.push(command);
            },
            Err(e) => {
                return Err(e);
            },
        }
    } else if commands.len() > 0 {
        return Err(ParseFailure::PipeWithoutFollowingCommand.to_error());
    }
    if commands.len() == 0 {
        return Err(ParseFailure::NoCommand.to_error());
    }
    Ok(commands)
}


/// A character that neither separates, quotes nor pipes.
pub open spec fn is_plain(c: char) -> bool {
    !is_ws(c) && !is_quote(c) && c != '|'
}

proof fn lemma_skip_all_ws(s: Seq<char>, i: int)
    requires
        0 <= i <= s.len(),
        forall|k: int| i <= k < s.len() ==> is_ws(#[trigger] s[k]),
    ensures
        skip_ws(s, i) == s.len(),
    decreases s.len() - i,
{
    if i < s.len() {
        lemma_skip_all_ws(s, i + 1);
    }
}

/// Unquoted plain characters are collected into the token one by one.
proof fn lemma_scan_plain(s: Seq<char>, i: int, k: int, tok: Seq<char>)
    requires
        0 <= i <= k <= s.len(),
        forall|m: int| i <= m < k ==> is_plain(#[trigger] s[m]),
    ensures
        scan_from(s, i, None, tok) == scan_from(s, k, None, tok + s.subrange(i, k)),
    decreases k - i,
{
    if i < k {
        lemma_scan_plain(s, i + 1, k, tok.push(s[i]));
        assert(tok.push(s[i]) + s.subrange(i + 1, k) =~= tok + s.subrange(i, k));
    } else {
        assert(tok + s.subrange(i, k) =~= tok);
    }
}

/// Inside a quoted region every character but the closing quote is
/// collected into the token.
proof fn lemma_scan_quoted(s: Seq<char>, i: int, k: int, q: char, tok: Seq<char>)
    requires
        0 <= i <= k <= s.len(),
        forall|m: int| i <= m < k ==> #[trigger] s[m] != q,
    ensures
        scan_from(s, i, Some(q), tok) == scan_from(s, k, Some(q), tok + s.subrange(i, k)),
    decreases k - i,
{
    if i < k {
        lemma_scan_quoted(s, i + 1, k, q, tok.push(s[i]));
        assert(tok.push(s[i]) + s.subrange(i + 1, k) =~= tok + s.subrange(i, k));
    } else {
        assert(tok + s.subrange(i, k) =~= tok);
    }
}

/// A line of whitespace alone holds no command.
pub proof fn lemma_whitespace_line_has_no_command(s: Seq<char>)
    requires
        forall|k: int| 0 <= k < s.len() ==> is_ws(#[trigger] s[k]),
    ensures
        parse_model(s) == Err::<Seq<CommandModel>, ParseFailure>(ParseFailure::NoCommand),
{
    lemma_skip_all_ws(s, 0);
}

/// A quoted word is one argument, whatever whitespace and pipe symbols it
/// holds: `prog "w"` and `prog 'w'` parse as one command with argument `w`.
#[verifier::spinoff_prover]
pub proof fn lemma_quoted_word_is_one_argument(program: Seq<char>, q: char, w: Seq<char>)
    requires
        program.len() > 0,
        forall|k: int| 0 <= k < program.len() ==> is_plain(#[trigger] program[k]),
        is_quote(q),
        w.len() > 0,
        forall|k: int| 0 <= k < w.len() ==> #[trigger] w[k] != q,
    ensures
        parse_model(program + seq![' ', q] + w + seq![q]) == Ok::<
            Seq<CommandModel>,
            ParseFailure,
        >(seq![CommandModel { program, args: seq![w] }]),
{
    let s = program + seq![' ', q] + w + seq![q];
    let p = program.len() as int;
    let e: Seq<char> = Seq::empty();
    assert(s.subrange(0, p) =~= program);
    assert forall|m: int| 0 <= m < p implies is_plain(#[trigger] s[m]) by {
        assert(s[m] == program[m]);
    }
    assert(!is_ws(s[0]));
    lemma_scan_plain(s, 0, p, e);
    assert(e + program =~= program);
    assert(s[p] == ' ');
    // the program word ends at the space
    assert(next_token(s, 0) == ScanModel::Found(TokenModel::Word(program), p + 1));
    assert(s[p + 1] == q);
    assert(skip_ws(s, p + 1) == p + 1);
    let wl = w.len() as int;
    assert forall|m: int| p + 2 <= m < p + 2 + wl implies #[trigger] s[m] != q by {
        assert(s[m] == w[m - p - 2]);
    }
    lemma_scan_quoted(s, p + 2, p + 2 + wl, q, e);
    assert(s.subrange(p + 2, p + 2 + wl) =~= w);
    assert(e + w =~= w);
    assert(s[p + 2 + wl] == q);
    assert(s.len() == p + 3 + wl);
    assert(scan_from(s, p + 3 + wl, None, w) == ScanModel::Found(TokenModel::Word(w), p + 3 + wl));
    assert(scan_from(s, p + 2 + wl, Some(q), w) == scan_from(s, p + 3 + wl, None, w));
    assert(scan_from(s, p + 1, None, e) == scan_from(s, p + 2, Some(q), e));
    assert(next_token(s, p + 1) == ScanModel::Found(TokenModel::Word(w), p + 3 + wl));
    assert(next_token(s, p + 3 + wl) == ScanModel::End);
    let cur = seq![program, w];
    assert(Seq::<Seq<char>>::empty().push(program).push(w) =~= cur);
    assert(command_of(cur) == CommandModel { program, args: seq![w] }) by {
        assert(cur.drop_first() =~= seq![w]);
    }
    let none: Seq<CommandModel> = Seq::empty();
    assert(none.push(CommandModel { program, args: seq![w] }) =~= seq![
        CommandModel { program, args: seq![w] },
    ]);
    assert(parse_from(s, p + 3 + wl, cur, none) == Ok::<Seq<CommandModel>, ParseFailure>(
        none.push(command_of(cur)),
    ));
    assert(parse_from(s, p + 1, seq![program], none) == parse_from(s, p + 3 + wl, cur, none)) by {
        assert(seq![program].push(w) =~= cur);
    }
    assert(parse_from(s, 0, Seq::empty(), none) == parse_from(s, p + 1, seq![program], none)) by {
        assert(Seq::<Seq<char>>::empty().push(program) =~= seq![program]);
    }
}


/// The stage names joined by ` | `.
pub open spec fn pipe_join(names: Seq<Seq<char>>) -> Seq<char>
    decreases names.len(),
{
    if names.len() == 0 {
        Seq::empty()
    } else if names.len() == 1 {
        names[0]
    } else {
        names[0] + seq![' ', '|', ' '] + pipe_join(names.drop_first())
    }
}

/// Commands that are program names alone.
pub open spec fn bare_commands(names: Seq<Seq<char>>) -> Seq<CommandModel> {
    names.map_values(|n: Seq<char>| CommandModel { program: n, args: Seq::empty() })
}

/// A non-empty name with no whitespace, quote or pipe symbol in it, as every
/// non-empty alphanumeric name is, in any script.
pub open spec fn is_plain_name(n: Seq<char>) -> bool {
    n.len() > 0 && forall|k: int| 0 <= k < n.len() ==> is_plain(#[trigger] n[k])
}

#[verifier::spinoff_prover]
proof fn lemma_parse_names(s: Seq<char>, i: int, names: Seq<Seq<char>>, cmds: Seq<CommandModel>)
    requires
        0 <= i <= s.len(),
        names.len() >= 1,
        s.subrange(i, s.len() as int) == pipe_join(names),
        forall|k: int| 0 <= k < names.len() ==> is_plain_name(#[trigger] names[k]),
    ensures
        parse_from(s, i, Seq::empty(), cmds) == Ok::<Seq<CommandModel>, ParseFailure>(
            cmds + bare_commands(names),
        ),
    decreases names.len(),
{
    let n0 = names[0];
    let l = n0.len() as int;
    let e: Seq<char> = Seq::empty();
    let rest = names.drop_first();
    let t = s.subrange(i, s.len() as int);
    assert(is_plain_name(names[0]));
    if names.len() == 1 {
        assert(t == n0);
    } else {
        assert(t == n0 + seq![' ', '|', ' '] + pipe_join(rest));
    }
    assert(t.len() == s.len() - i);
    assert(t.len() >= l);
    assert(forall|m: int| 0 <= m < l ==> t[m] == n0[m]);
    assert forall|m: int| i <= m < i + l implies is_plain(#[trigger] s[m]) by {
        assert(t[m - i] == s[m]);
        assert(is_plain(n0[m - i]));
    }
    assert(skip_ws(s, i) == i) by {
        assert(is_plain(s[i]));
    }
    lemma_scan_plain(s, i, i + l, e);
    assert(s.subrange(i, i + l) =~= n0);
    assert(e + n0 =~= n0);
    let c0 = CommandModel { program: n0, args: Seq::empty() };
    assert(command_of(seq![n0]) == c0) by {
        assert(seq![n0].drop_first() =~= Seq::<Seq<char>>::empty());
    }
    assert(Seq::<Seq<char>>::empty().push(n0) =~= seq![n0]);
    if names.len() == 1 {
        assert(s.len() == i + l);
        assert(next_token(s, i) == ScanModel::Found(TokenModel::Word(n0), i + l));
        assert(next_token(s, i + l) == ScanModel::End);
        assert(parse_from(s, i + l, seq![n0], cmds) == Ok::<Seq<CommandModel>, ParseFailure>(
            cmds.push(c0),
        ));
        assert(cmds + bare_commands(names) =~= cmds.push(c0));
    } else {
        assert(t =~= n0 + seq![' ', '|', ' '] + pipe_join(rest));
        assert(t.len() == l + 3 + pipe_join(rest).len());
        assert(t.len() == s.len() - i);
        assert(t[l] == ' ' && t[l + 1] == '|' && t[l + 2] == ' ');
        assert(s[i + l] == t[l]);
        assert(s[i + l + 1] == t[l + 1]);
        assert(s[i + l + 2] == t[l + 2]);
        assert(s[i + l] == ' ');
        assert(s[i + l + 1] == '|');
        assert(s[i + l + 2] == ' ');
        assert(s.subrange(i + l + 3, s.len() as int) =~= pipe_join(rest)) by {
            assert(t.subrange(l + 3, t.len() as int) =~= pipe_join(rest));
        }
        assert(scan_from(s, i + l, None, n0) == ScanModel::Found(TokenModel::Word(n0), i + l + 1));
        assert(next_token(s, i) == ScanModel::Found(TokenModel::Word(n0), i + l + 1));
        assert(skip_ws(s, i + l + 1) == i + l + 1);
        assert(next_token(s, i + l + 1) == ScanModel::Found(TokenModel::Pipe, i + l + 2));
        assert(skip_ws(s, i + l + 2) == skip_ws(s, i + l + 3));
        let cmds1 = cmds.push(c0);
        assert(forall|k: int| 0 <= k < rest.len() ==> #[trigger] rest[k] == names[k + 1]);
        lemma_parse_names(s, i + l + 3, rest, cmds1);
        assert(parse_from(s, i + l + 2, Seq::empty(), cmds1) == parse_from(
            s,
            i + l + 3,
            Seq::empty(),
            cmds1,
        ));
        assert(parse_from(s, i + l + 1, seq![n0], cmds) == parse_from(
            s,
            i + l + 2,
            Seq::empty(),
            cmds1,
        ));
        assert(cmds1 + bare_commands(rest) =~= cmds + bare_commands(names));
    }
}

/// A line `a | b | c ...` of non-empty names free of whitespace, quotes and
/// pipe symbols (alphanumeric names among them) parses as one command per
/// name, in order, each with that name as its program and no
/// arguments.
pub proof fn lemma_pipeline_of_names(names: Seq<Seq<char>>)
    requires
        names.len() >= 1,
        forall|k: int| 0 <= k < names.len() ==> is_plain_name(#[trigger] names[k]),
    ensures
        parse_model(pipe_join(names)) == Ok::<Seq<CommandModel>, ParseFailure>(
            bare_commands(names),
        ),
{
    let s = pipe_join(names);
    assert(s.subrange(0, s.len() as int) =~= s);
    lemma_parse_names(s, 0, names, Seq::empty());
    assert(Seq::<CommandModel>::empty() + bare_commands(names) =~= bare_commands(names));
}


proof fn lemma_scan_words_nonempty(s: Seq<char>, i: int, quote: Option<char>, tok: Seq<char>)
    ensures
        scan_from(s, i, quote, tok) matches ScanModel::Found(TokenModel::Word(w), _) ==> w.len()
            > 0,
    decreases s.len() - i,
{
    if 0 <= i < s.len() {
        lemma_scan_words_nonempty(s, i + 1, Some(s[i]), tok);
        lemma_scan_words_nonempty(s, i + 1, None, tok);
        lemma_scan_words_nonempty(s, i + 1, quote, tok.push(s[i]));
    }
}

/// Every command has a non-empty program.
pub open spec fn programs_nonempty(cmds: Seq<CommandModel>) -> bool {
    forall|k: int| 0 <= k < cmds.len() ==> (#[trigger] cmds[k]).program.len() > 0
}

#[verifier::spinoff_prover]
proof fn lemma_parse_from_programs(
    s: Seq<char>,
    i: int,
    cur: Seq<Seq<char>>,
    cmds: Seq<CommandModel>,
)
    requires
        cur.len() > 0 ==> cur[0].len() > 0,
        programs_nonempty(cmds),
    ensures
        parse_from(s, i, cur, cmds) matches Ok(r) ==> r.len() > 0 && programs_nonempty(r),
    decreases s.len() - i,
{
    lemma_next_token_advances(s, i);
    lemma_scan_words_nonempty(s, skip_ws(s, i), None, Seq::empty());
    match next_token(s, i) {
        ScanModel::Found(TokenModel::Pipe, j) => {
            if cur.len() > 0 {
                let c = cmds.push(command_of(cur));
                assert forall|k: int| 0 <= k < c.len() implies (#[trigger] c[k]).program.len()
                    > 0 by {
                    if k < cmds.len() {
                        assert(c[k] == cmds[k]);
                    }
                }
                lemma_parse_from_programs(s, j, Seq::empty(), c);
            }
        },
        ScanModel::Found(TokenModel::Word(w), j) => {
            assert(cur.push(w)[0].len() > 0);
            lemma_parse_from_programs(s, j, cur.push(w), cmds);
        },
        _ => {
            if cur.len() > 0 {
                let c = cmds.push(command_of(cur));
                assert forall|k: int| 0 <= k < c.len() implies (#[trigger] c[k]).program.len()
                    > 0 by {
                    if k < cmds.len() {
                        assert(c[k] == cmds[k]);
                    }
                }
            }
        },
    }
}

/// A line that parses yields at least one command, and no command with an
/// empty program.
pub proof fn lemma_parsed_pipeline_is_well_formed(s: Seq<char>)
    ensures
        parse_model(s) matches Ok(cmds) ==> cmds.len() > 0 && programs_nonempty(cmds),
{
    lemma_parse_from_programs(s, 0, Seq::empty(), Seq::empty());
}

} // verus!
