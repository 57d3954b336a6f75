//! Row templates: which strings apply, and what is kept when one of them does not parse.

use vstd::prelude::*;

use crate::text;

verus! {

/// What a template field stands for.
#[derive(Debug, Clone, Copy, PartialEq, Eq, Structural)]
pub enum TokenId {
    Primary,
    Secondary,
    Worktree,
    Project,
    Session,
    Window,
    WindowIndex,
    PaneTitle,
    AgentLabel,
    StatusIcon,
    AgentIcon,
    PaneSuffix,
    Elapsed,
    GitStats,
    GitCommitted,
    GitUncommitted,
    GitRebase,
    GitAhead,
    GitBehind,
    GitDirty,
    GitConflict,
    GitBranch,
    PrNumber,
    PrChecks,
    StatusLabel,
    Group,
    GroupCount,
    GroupStatus,
    Idx,
    JumpKey,
}

/// The name of a field in a template.
pub open spec fn token_name(id: TokenId) -> Seq<char> {
    match id {
        TokenId::Primary => "primary"@,
        TokenId::Secondary => "secondary"@,
        TokenId::Worktree => "worktree"@,
        TokenId::Project => "project"@,
        TokenId::Session => "session"@,
        TokenId::Window => "window"@,
        TokenId::WindowIndex => "window_index"@,
        TokenId::PaneTitle => "pane_title"@,
        TokenId::AgentLabel => "agent_label"@,
        TokenId::StatusIcon => "status_icon"@,
        TokenId::AgentIcon => "agent_icon"@,
        TokenId::PaneSuffix => "pane_suffix"@,
        TokenId::Elapsed => "elapsed"@,
        TokenId::GitStats => "git_stats"@,
        TokenId::GitCommitted => "git_committed"@,
        TokenId::GitUncommitted => "git_uncommitted"@,
        TokenId::GitRebase => "git_rebase"@,
        TokenId::GitAhead => "git_ahead"@,
        TokenId::GitBehind => "git_behind"@,
        TokenId::GitDirty => "git_dirty"@,
        TokenId::GitConflict => "git_conflict"@,
        TokenId::GitBranch => "git_branch"@,
        TokenId::PrNumber => "pr_number"@,
        TokenId::PrChecks => "pr_checks"@,
        TokenId::StatusLabel => "status_label"@,
        TokenId::Group => "group"@,
        TokenId::GroupCount => "group_count"@,
        TokenId::GroupStatus => "group_status"@,
        TokenId::Idx => "idx"@,
        TokenId::JumpKey => "jump_key"@,
    }
}

impl TokenId {
    pub fn name(self) -> (r: &'static str)
        ensures
            r@ == token_name(self),
    {
        match self {
            TokenId::Primary => "primary",
            TokenId::Secondary => "secondary",
            TokenId::Worktree => "worktree",
            TokenId::Project => "project",
            TokenId::Session => "session",
            TokenId::Window => "window",
            TokenId::WindowIndex => "window_index",
            TokenId::PaneTitle => "pane_title",
            TokenId::AgentLabel => "agent_label",
            TokenId::StatusIcon => "status_icon",
            TokenId::AgentIcon => "agent_icon",
            TokenId::PaneSuffix => "pane_suffix",
            TokenId::Elapsed => "elapsed",
            TokenId::GitStats => "git_stats",
            TokenId::GitCommitted => "git_committed",
            TokenId::GitUncommitted => "git_uncommitted",
            TokenId::GitRebase => "git_rebase",
            TokenId::GitAhead => "git_ahead",
            TokenId::GitBehind => "git_behind",
            TokenId::GitDirty => "git_dirty",
            TokenId::GitConflict => "git_conflict",
            TokenId::GitBranch => "git_branch",
            TokenId::PrNumber => "pr_number",
            TokenId::PrChecks => "pr_checks",
            TokenId::StatusLabel => "status_label",
            TokenId::Group => "group",
            TokenId::GroupCount => "group_count",
            TokenId::GroupStatus => "group_status",
            TokenId::Idx => "idx",
            TokenId::JumpKey => "jump_key",
        }
    }
}

/// One part of a parsed template.
#[derive(Debug, PartialEq, Eq)]
pub enum Token {
    Field(TokenId),
    Literal(String),
    /// Takes up the room that the rest leaves.
    Fill,
    /// A style directive, as written.
    Style(String),
}

impl Clone for Token {
    fn clone(&self) -> (r: Self)
        ensures
            r == *self,
    {
        match self {
            Token::Field(id) => Token::Field(*id),
            Token::Literal(s) => Token::Literal(s.clone()),
            Token::Fill => Token::Fill,
            Token::Style(s) => Token::Style(s.clone()),
        }
    }
}

/// Why a template does not parse.
#[derive(Debug, PartialEq, Eq)]
pub struct ParseError {
    pub message: String,
}

/// The outcome of parsing one template line.
pub type LineParse = Result<Vec<Token>, ParseError>;

/// The outcomes of parsing every line of a set of template strings.
#[derive(Debug)]
pub struct TemplateParses {
    pub compact: LineParse,
    pub tiles: Vec<LineParse>,
    pub horizontal: Vec<LineParse>,
    pub group_header: LineParse,
}

/// Parsed templates of one sidebar.
#[derive(Debug)]
pub struct ParsedTemplates {
    pub compact: Vec<Token>,
    pub tiles: Vec<Vec<Token>>,
    pub horizontal: Vec<Vec<Token>>,
    pub group_header: Vec<Token>,
}

/// The template strings that `ParsedTemplates` were parsed from. Kept so that an unchanged
/// configuration is not parsed again, and a broken value is not retried on every snapshot.
#[derive(Debug, PartialEq, Eq)]
pub struct TemplateStrings {
    pub compact: String,
    pub tiles: Vec<String>,
    pub horizontal: Vec<String>,
    pub group_header: String,
}

/// Template strings, by their contents.
pub struct StringsModel {
    pub compact: Seq<char>,
    pub tiles: Seq<Seq<char>>,
    pub horizontal: Seq<Seq<char>>,
    pub group_header: Seq<char>,
}

impl View for TemplateStrings {
    type V = StringsModel;

    open spec fn view(&self) -> StringsModel {
        StringsModel {
            compact: self.compact@,
            tiles: text::texts(self.tiles@),
            horizontal: text::texts(self.horizontal@),
            group_header: self.group_header@,
        }
    }
}

/// The latest failure to parse a template.
#[derive(Debug, PartialEq, Eq)]
pub struct TemplateError {
    pub location: String,
    pub message: String,
}

/// A failure, by its contents.
pub struct ErrorModel {
    pub location: Seq<char>,
    pub message: Seq<char>,
}

impl View for TemplateError {
    type V = ErrorModel;

    open spec fn view(&self) -> ErrorModel {
        ErrorModel { location: self.location@, message: self.message@ }
    }
}

/// The contents of an optional failure.
pub open spec fn error_model(e: Option<TemplateError>) -> Option<ErrorModel> {
    match e {
        Some(e) => Some(e@),
        None => None,
    }
}

impl TemplateError {
    pub fn new(location: String, error: &ParseError) -> (r: Self)
        ensures
            r@ == (ErrorModel { location: location@, message: error.message@ }),
    {
        TemplateError { location, message: error.message.clone() }
    }

    pub fn display_message(&self) -> (r: String)
        ensures
            r@ == "template error: "@ + self.message@ + " in "@ + self.location@,
    {
        let mut r = "template error: ".to_owned();
        r.append(self.message.as_str());
        r.append(" in ");
        r.append(self.location.as_str());
        r
    }
}

// ── Which strings apply ─────────────────────────────────────────

/// Templates of the grouped presentation, as configured.
#[derive(Debug)]
pub struct GroupedTemplatesConfig {
    pub compact: Option<String>,
    pub tiles: Option<Vec<String>>,
    pub header: Option<String>,
}

/// Templates, as configured.
#[derive(Debug)]
pub struct TemplatesConfig {
    pub compact: Option<String>,
    pub tiles: Option<Vec<String>>,
    pub horizontal: Option<Vec<String>>,
    pub grouped: Option<GroupedTemplatesConfig>,
}

pub const DEFAULT_COMPACT_TEMPLATE: &'static str = "{status_icon} {primary} {pane_suffix} {fill} {elapsed}";

pub const DEFAULT_GROUP_HEADER_TEMPLATE: &'static str = "{group} {fill} {group_count}";

pub const TILE_LINE_1: &'static str = "{primary} {pane_suffix} {fill} {elapsed}";

pub const TILE_LINE_2: &'static str = "{secondary} {fill} {git_stats}";

pub const TILE_LINE_3: &'static str = "{pane_title} {fill} {pr_number} {pr_checks}";

pub const GROUPED_TILE_LINE_1: &'static str = "{primary} {pane_suffix} {fill} {pr_number} {elapsed}";

pub const GROUPED_TILE_LINE_2: &'static str = "{pane_title} {fill} {pr_checks} {git_stats}";

/// Lines of a tile.
pub open spec fn default_tiles() -> Seq<Seq<char>> {
    seq![TILE_LINE_1@, TILE_LINE_2@, TILE_LINE_3@]
}

/// Lines of an item of the top bar.
pub open spec fn default_horizontal() -> Seq<Seq<char>> {
    seq![DEFAULT_COMPACT_TEMPLATE@, TILE_LINE_2@, TILE_LINE_3@]
}

/// Lines of a tile in the grouped presentation. The section header already names the project or
/// session, so the line that would repeat it is dropped, and what it carried moves up.
pub open spec fn default_grouped_tiles() -> Seq<Seq<char>> {
    seq![GROUPED_TILE_LINE_1@, GROUPED_TILE_LINE_2@]
}

pub fn default_tile_templates() -> (r: Vec<String>)
    ensures
        text::texts(r@) == default_tiles(),
{
    let r = vec![TILE_LINE_1.to_owned(), TILE_LINE_2.to_owned(), TILE_LINE_3.to_owned()];
    proof {
        assert(text::texts(r@) =~= default_tiles());
    }
    r
}

pub fn default_horizontal_templates() -> (r: Vec<String>)
    ensures
        text::texts(r@) == default_horizontal(),
{
    let r = vec![DEFAULT_COMPACT_TEMPLATE.to_owned(), TILE_LINE_2.to_owned(), TILE_LINE_3.to_owned()];
    proof {
        assert(text::texts(r@) =~= default_horizontal());
    }
    r
}

pub fn default_grouped_tile_templates() -> (r: Vec<String>)
    ensures
        text::texts(r@) == default_grouped_tiles(),
{
    let r = vec![GROUPED_TILE_LINE_1.to_owned(), GROUPED_TILE_LINE_2.to_owned()];
    proof {
        assert(text::texts(r@) =~= default_grouped_tiles());
    }
    r
}

/// `first`, or `second` where there is none.
pub open spec fn or<T>(first: Option<T>, second: Option<T>) -> Option<T> {
    match first {
        Some(t) => Some(t),
        None => second,
    }
}

/// `value`, or `default` where there is none.
pub open spec fn or_else<T>(value: Option<T>, default: T) -> T {
    match value {
        Some(t) => t,
        None => default,
    }
}

/// The strings of optional lines.
pub open spec fn optional_texts(v: Option<Vec<String>>) -> Option<Seq<Seq<char>>> {
    match v {
        Some(lines) => Some(text::texts(lines@)),
        None => None,
    }
}

/// The grouped templates of a configuration.
pub open spec fn grouped_of(templates: Option<TemplatesConfig>) -> Option<GroupedTemplatesConfig> {
    match templates {
        Some(t) => t.grouped,
        None => None,
    }
}

/// The template strings of a presentation. While grouped, a grouped template wins, then the
/// ungrouped one of the same name; only where neither is configured do the defaults apply.
pub open spec fn resolved(templates: Option<TemplatesConfig>, grouped: bool) -> StringsModel {
    let flat_compact = match templates {
        Some(t) => text::optional(t.compact),
        None => None,
    };
    let flat_tiles = match templates {
        Some(t) => optional_texts(t.tiles),
        None => None,
    };
    let horizontal = match templates {
        Some(t) => optional_texts(t.horizontal),
        None => None,
    };
    let overrides = grouped_of(templates);
    let group_compact = match overrides {
        Some(g) => text::optional(g.compact),
        None => None,
    };
    let group_tiles = match overrides {
        Some(g) => optional_texts(g.tiles),
        None => None,
    };
    let header = match overrides {
        Some(g) => text::optional(g.header),
        None => None,
    };
    StringsModel {
        compact: or_else(
            if grouped {
                or(group_compact, flat_compact)
            } else {
                flat_compact
            },
            DEFAULT_COMPACT_TEMPLATE@,
        ),
        tiles: if grouped {
            or_else(or(group_tiles, flat_tiles), default_grouped_tiles())
        } else {
            or_else(flat_tiles, default_tiles())
        },
        horizontal: or_else(horizontal, default_horizontal()),
        group_header: or_else(header, DEFAULT_GROUP_HEADER_TEMPLATE@),
    }
}

/// A copy of template lines.
pub fn copy_lines(lines: &Vec<String>) -> (r: Vec<String>)
    ensures
        text::texts(r@) == text::texts(lines@),
{
    let mut r: Vec<String> = Vec::new();
    let mut i: usize = 0;
    while i < lines.len()
        invariant
            i <= lines.len(),
            r@.len() == i,
            forall|j: int| 0 <= j < i ==> (#[trigger] r@[j])@ == lines@[j]@,
        decreases lines.len() - i,
    {
        r.push(lines[i].clone());
        i += 1;
    }
    proof {
        assert(text::texts(r@) =~= text::texts(lines@));
    }
    r
}

/// Resolves the template strings for a presentation.
pub fn resolved_template_strings(templates: Option<&TemplatesConfig>, grouped: bool) -> (r: TemplateStrings)
    ensures
        r@ == resolved(
            match templates {
                Some(t) => Some(*t),
                None => None,
            },
            grouped,
        ),
{
    let mut compact: Option<&String> = None;
    let mut tiles: Option<&Vec<String>> = None;
    let mut horizontal: Option<&Vec<String>> = None;
    let mut header: Option<&String> = None;
    match templates {
        Some(t) => {
            match &t.compact {
                Some(s) => compact = Some(s),
                None => {},
            }
            match &t.tiles {
                Some(s) => tiles = Some(s),
                None => {},
            }
            match &t.horizontal {
                Some(s) => horizontal = Some(s),
                None => {},
            }
            match &t.grouped {
                Some(g) => {
                    match &g.header {
                        Some(s) => header = Some(s),
                        None => {},
                    }
                    if grouped {
                        match &g.compact {
                            Some(s) => compact = Some(s),
                            None => {},
                        }
                        match &g.tiles {
                            Some(s) => tiles = Some(s),
                            None => {},
                        }
                    }
                },
                None => {},
            }
        },
        None => {},
    }
    TemplateStrings {
        compact: match compact {
            Some(s) => s.clone(),
            None => DEFAULT_COMPACT_TEMPLATE.to_owned(),
        },
        tiles: match tiles {
            Some(s) => copy_lines(s),
            None => if grouped {
                default_grouped_tile_templates()
            } else {
                default_tile_templates()
            },
        },
        horizontal: match horizontal {
            Some(s) => copy_lines(s),
            None => default_horizontal_templates(),
        },
        group_header: match header {
            Some(s) => s.clone(),
            None => DEFAULT_GROUP_HEADER_TEMPLATE.to_owned(),
        },
    }
}

/// Whether two sets of template strings are the same.
pub fn same_strings(a: &TemplateStrings, b: &TemplateStrings) -> (r: bool)
    ensures
        r == (a@ == b@),
{
    text::same(a.compact.as_str(), b.compact.as_str()) && text::same_texts(&a.tiles, &b.tiles) && text::same_texts(
        &a.horizontal,
        &b.horizontal,
    ) && text::same(a.group_header.as_str(), b.group_header.as_str())
}

// ── What the outcomes amount to ─────────────────────────────────

/// The index of the first line that does not parse, or the number of lines.
pub open spec fn first_failure(lines: Seq<LineParse>) -> nat
    decreases lines.len(),
{
    if lines.len() == 0 || lines[0] is Err {
        0
    } else {
        1 + first_failure(lines.skip(1))
    }
}

proof fn lemma_first_failure(lines: Seq<LineParse>, k: int)
    requires
        0 <= k <= lines.len(),
        k < lines.len() ==> lines[k] is Err,
        forall|j: int| 0 <= j < k ==> (#[trigger] lines[j]) is Ok,
    ensures
        first_failure(lines) == k,
    decreases lines.len(),
{
    if lines.len() > 0 && k > 0 {
        assert(lines[0] is Ok);
        let rest = lines.skip(1);
        if k < lines.len() {
            assert(rest[k - 1] == lines[k]);
        }
        assert forall|j: int| 0 <= j < k - 1 implies (#[trigger] rest[j]) is Ok by {
            assert(rest[j] == lines[j + 1]);
        }
        lemma_first_failure(rest, k - 1);
    }
}

/// The failure of a run of lines, located by the first line that does not parse.
pub open spec fn lines_error(lines: Seq<LineParse>, kind: Seq<char>) -> Option<ErrorModel> {
    let k = first_failure(lines) as int;
    if k < lines.len() {
        Some(
            ErrorModel {
                location: kind + seq!['['] + text::numeral(k as nat) + seq![']'],
                message: (lines[k]->Err_0).message@,
            },
        )
    } else {
        None
    }
}

/// Collects the outcomes of parsing the lines of one template.
pub fn parse_template_lines(lines: Vec<LineParse>, kind: &str) -> (r: Result<Vec<Vec<Token>>, TemplateError>)
    ensures
        match r {
            Ok(tokens) => {
                &&& lines_error(lines@, kind@) is None
                &&& tokens@.len() == lines@.len()
                &&& forall|i: int| 0 <= i < lines@.len() ==> lines@[i] == Ok::<Vec<Token>, ParseError>(#[trigger] tokens@[i])
            },
            Err(e) => lines_error(lines@, kind@) == Some(e@),
        },
{
    let ghost all = lines@;
    let n: usize = lines.len();
    let mut rest = lines;
    let mut tokens: Vec<Vec<Token>> = Vec::new();
    let mut i: usize = 0;
    proof {
        assert(all.skip(0) =~= all);
    }
    while rest.len() > 0
        invariant
            all == lines@,
            n == all.len(),
            i + rest@.len() == n,
            rest@ =~= all.skip(i as int),
            tokens@.len() == i,
            forall|j: int| 0 <= j < i ==> all[j] == Ok::<Vec<Token>, ParseError>(#[trigger] tokens@[j]),
        decreases rest.len(),
    {
        let outcome = rest.remove(0);
        proof {
            assert(outcome == all[i as int]);
        }
        match outcome {
            Ok(line) => tokens.push(line),
            Err(e) => {
                let mut location = kind.to_owned();
                location.push('[');
                text::push_decimal(&mut location, i as u64);
                location.push(']');
                proof {
                    assert forall|j: int| 0 <= j < i implies (#[trigger] all[j]) is Ok by {
                        assert(all[j] == Ok::<Vec<Token>, ParseError>(tokens@[j]));
                    }
                    lemma_first_failure(all, i as int);
                    assert(location@ =~= kind@ + seq!['['] + text::numeral(i as nat) + seq![']']);
                }
                return Err(TemplateError::new(location, &e));
            },
        }
        i += 1;
    }
    proof {
        assert forall|j: int| 0 <= j < i implies (#[trigger] all[j]) is Ok by {
            assert(all[j] == Ok::<Vec<Token>, ParseError>(tokens@[j]));
        }
        lemma_first_failure(all, i as int);
    }
    Ok(tokens)
}

/// Whether a token may stand in a group header. A header stands for no single agent, so only
/// group fields, fills, literals and style directives mean something there.
pub open spec fn header_token(token: Token) -> bool {
    token matches Token::Field(id) ==> id == TokenId::Group || id == TokenId::GroupCount || id == TokenId::GroupStatus
}

/// The index of the first token that may not stand in a group header, or the number of tokens.
pub open spec fn first_misplaced(tokens: Seq<Token>) -> nat
    decreases tokens.len(),
{
    if tokens.len() == 0 || !header_token(tokens[0]) {
        0
    } else {
        1 + first_misplaced(tokens.skip(1))
    }
}

proof fn lemma_first_misplaced(tokens: Seq<Token>, k: int)
    requires
        0 <= k <= tokens.len(),
        k < tokens.len() ==> !header_token(tokens[k]),
        forall|j: int| 0 <= j < k ==> header_token(#[trigger] tokens[j]),
    ensures
        first_misplaced(tokens) == k,
    decreases tokens.len(),
{
    if tokens.len() > 0 && k > 0 {
        assert(header_token(tokens[0]));
        let rest = tokens.skip(1);
        if k < tokens.len() {
            assert(rest[k - 1] == tokens[k]);
        }
        assert forall|j: int| 0 <= j < k - 1 implies header_token(#[trigger] rest[j]) by {
            assert(rest[j] == tokens[j + 1]);
        }
        lemma_first_misplaced(rest, k - 1);
    }
}

/// The failure of header tokens, by the first that may not stand there.
pub open spec fn header_error(tokens: Seq<Token>) -> Option<ErrorModel> {
    let k = first_misplaced(tokens) as int;
    if k < tokens.len() {
        Some(
            ErrorModel {
                location: "group_header"@,
                message: "unsupported token '"@ + token_name(tokens[k]->Field_0) + "'"@,
            },
        )
    } else {
        None
    }
}

/// Refuses agent fields in a group header template.
pub fn validate_group_header_tokens(tokens: &Vec<Token>) -> (r: Result<(), TemplateError>)
    ensures
        match r {
            Ok(_) => header_error(tokens@) is None,
            Err(e) => header_error(tokens@) == Some(e@),
        },
{
    let mut i: usize = 0;
    while i < tokens.len()
        invariant
            i <= tokens.len(),
            forall|j: int| 0 <= j < i ==> header_token(#[trigger] tokens@[j]),
        decreases tokens.len() - i,
    {
        match &tokens[i] {
            Token::Field(id) => {
                if !matches!(*id, TokenId::Group | TokenId::GroupCount | TokenId::GroupStatus) {
                    proof {
                        lemma_first_misplaced(tokens@, i as int);
                    }
                    let mut message = "unsupported token '".to_owned();
                    message.append(id.name());
                    message.append("'");
                    return Err(TemplateError { location: "group_header".to_owned(), message });
                }
            },
            _ => {},
        }
        i += 1;
    }
    proof {
        lemma_first_misplaced(tokens@, i as int);
    }
    Ok(())
}

/// The failure of a group header.
pub open spec fn group_header_error(line: LineParse) -> Option<ErrorModel> {
    match line {
        Ok(tokens) => header_error(tokens@),
        Err(e) => Some(ErrorModel { location: "group_header"@, message: e.message@ }),
    }
}

/// Takes the outcome of parsing a group header.
pub fn parse_group_header(line: LineParse) -> (r: Result<Vec<Token>, TemplateError>)
    ensures
        match r {
            Ok(tokens) => group_header_error(line) is None && line == Ok::<Vec<Token>, ParseError>(tokens),
            Err(e) => group_header_error(line) == Some(e@),
        },
{
    match line {
        Ok(tokens) => match validate_group_header_tokens(&tokens) {
            Ok(_) => Ok(tokens),
            Err(e) => Err(e),
        },
        Err(e) => Err(TemplateError::new("group_header".to_owned(), &e)),
    }
}

/// The failure of a compact template.
pub open spec fn compact_error(line: LineParse) -> Option<ErrorModel> {
    match line {
        Ok(_) => None,
        Err(e) => Some(ErrorModel { location: "compact"@, message: e.message@ }),
    }
}

/// The first failure among the templates, in the order compact, tiles, horizontal, group header.
pub open spec fn first_error(parses: TemplateParses) -> Option<ErrorModel> {
    or(
        compact_error(parses.compact),
        or(
            lines_error(parses.tiles@, "tiles"@),
            or(lines_error(parses.horizontal@, "horizontal"@), group_header_error(parses.group_header)),
        ),
    )
}

/// Whether `tokens` are the outcomes `lines`, all of which parse.
pub open spec fn taken(lines: Seq<LineParse>, tokens: Seq<Vec<Token>>) -> bool {
    tokens.len() == lines.len() && forall|i: int|
        0 <= i < lines.len() ==> lines[i] == Ok::<Vec<Token>, ParseError>(#[trigger] tokens[i])
}

/// Whether `result` takes from `parses` every template that parses, and from `fallback` the rest.
pub open spec fn taken_or_kept(parses: TemplateParses, fallback: ParsedTemplates, result: ParsedTemplates) -> bool {
    &&& match parses.compact {
        Ok(tokens) => result.compact == tokens,
        Err(_) => result.compact == fallback.compact,
    }
    &&& if lines_error(parses.tiles@, "tiles"@) is None {
        taken(parses.tiles@, result.tiles@)
    } else {
        result.tiles == fallback.tiles
    }
    &&& if lines_error(parses.horizontal@, "horizontal"@) is None {
        taken(parses.horizontal@, result.horizontal@)
    } else {
        result.horizontal == fallback.horizontal
    }
    &&& if group_header_error(parses.group_header) is None {
        parses.group_header == Ok::<Vec<Token>, ParseError>(result.group_header)
    } else {
        result.group_header == fallback.group_header
    }
}

fn keep_first(first: Option<TemplateError>, next: TemplateError) -> (r: Option<TemplateError>)
    ensures
        r == or(first, Some(next)),
{
    match first {
        Some(e) => Some(e),
        None => Some(next),
    }
}

/// Takes over the templates that parse, and leaves the others as they are. Returns the first
/// failure.
fn take_parses(templates: &mut ParsedTemplates, parses: TemplateParses) -> (r: Option<TemplateError>)
    ensures
        taken_or_kept(parses, *old(templates), *final(templates)),
        error_model(r) == first_error(parses),
{
    let mut error: Option<TemplateError> = None;
    match parses.compact {
        Ok(tokens) => {
            templates.compact = tokens;
        },
        Err(e) => {
            error = Some(TemplateError::new("compact".to_owned(), &e));
        },
    }
    match parse_template_lines(parses.tiles, "tiles") {
        Ok(tokens) => {
            templates.tiles = tokens;
        },
        Err(e) => {
            error = keep_first(error, e);
        },
    }
    match parse_template_lines(parses.horizontal, "horizontal") {
        Ok(tokens) => {
            templates.horizontal = tokens;
        },
        Err(e) => {
            error = keep_first(error, e);
        },
    }
    match parse_group_header(parses.group_header) {
        Ok(tokens) => {
            templates.group_header = tokens;
        },
        Err(e) => {
            error = keep_first(error, e);
        },
    }
    error
}

/// Takes the outcomes of parsing a sidebar's first templates. A template that does not parse
/// gives way to its default; the first failure is reported.
pub fn parse_templates(parses: TemplateParses, defaults: ParsedTemplates) -> (r: (
    ParsedTemplates,
    Option<TemplateError>,
))
    ensures
        taken_or_kept(parses, defaults, r.0),
        error_model(r.1) == first_error(parses),
{
    let mut templates = defaults;
    let error = take_parses(&mut templates, parses);
    (templates, error)
}

/// Takes the outcomes of parsing changed templates. A template that does not parse keeps its
/// previous form. The cached strings change in any case, so that a broken value is not retried on
/// every snapshot.
pub fn try_reparse_templates(
    templates: &mut ParsedTemplates,
    current: &mut TemplateStrings,
    new: TemplateStrings,
    parses: TemplateParses,
) -> (r: Option<TemplateError>)
    ensures
        taken_or_kept(parses, *old(templates), *final(templates)),
        *final(current) == new,
        error_model(r) == first_error(parses),
{
    let error = take_parses(templates, parses);
    *current = new;
    error
}

/// Where every template parses, all of them are taken over and no failure is reported; where one
/// fails, the others are taken over all the same.
pub proof fn law_failures_are_contained(parses: TemplateParses, fallback: ParsedTemplates, result: ParsedTemplates)
    requires
        taken_or_kept(parses, fallback, result),
    ensures
        first_error(parses) is None ==> {
            &&& parses.compact == Ok::<Vec<Token>, ParseError>(result.compact)
            &&& taken(parses.tiles@, result.tiles@)
            &&& taken(parses.horizontal@, result.horizontal@)
            &&& parses.group_header == Ok::<Vec<Token>, ParseError>(result.group_header)
        },
        parses.compact is Err && lines_error(parses.tiles@, "tiles"@) is None ==> result.compact == fallback.compact
            && taken(parses.tiles@, result.tiles@),
        lines_error(parses.tiles@, "tiles"@) is Some && parses.compact is Ok ==> result.tiles == fallback.tiles
            && parses.compact == Ok::<Vec<Token>, ParseError>(result.compact),
{
}

/// A template that was configured before grouping existed keeps its rows when grouping is
/// switched on, until the grouped rows are configured themselves.
pub proof fn law_grouped_rows_inherit(templates: TemplatesConfig)
    requires
        templates.tiles is Some,
        templates.grouped matches Some(g) ==> g.tiles is None,
    ensures
        resolved(Some(templates), true).tiles == resolved(Some(templates), false).tiles,
{
}

// ── What templates are for ──────────────────────────────────────

/// Every field has the name that it is written by.
pub proof fn law_fields_have_names()
    ensures
        token_name(TokenId::Primary) == "primary"@,
        token_name(TokenId::Secondary) == "secondary"@,
        token_name(TokenId::Worktree) == "worktree"@,
        token_name(TokenId::Project) == "project"@,
        token_name(TokenId::Session) == "session"@,
        token_name(TokenId::Window) == "window"@,
        token_name(TokenId::WindowIndex) == "window_index"@,
        token_name(TokenId::PaneTitle) == "pane_title"@,
        token_name(TokenId::AgentLabel) == "agent_label"@,
        token_name(TokenId::StatusIcon) == "status_icon"@,
        token_name(TokenId::AgentIcon) == "agent_icon"@,
        token_name(TokenId::PaneSuffix) == "pane_suffix"@,
        token_name(TokenId::Elapsed) == "elapsed"@,
        token_name(TokenId::GitStats) == "git_stats"@,
        token_name(TokenId::GitCommitted) == "git_committed"@,
        token_name(TokenId::GitUncommitted) == "git_uncommitted"@,
        token_name(TokenId::GitRebase) == "git_rebase"@,
        token_name(TokenId::GitAhead) == "git_ahead"@,
        token_name(TokenId::GitBehind) == "git_behind"@,
        token_name(TokenId::GitDirty) == "git_dirty"@,
        token_name(TokenId::GitConflict) == "git_conflict"@,
        token_name(TokenId::GitBranch) == "git_branch"@,
        token_name(TokenId::PrNumber) == "pr_number"@,
        token_name(TokenId::PrChecks) == "pr_checks"@,
        token_name(TokenId::StatusLabel) == "status_label"@,
        token_name(TokenId::Group) == "group"@,
        token_name(TokenId::GroupCount) == "group_count"@,
        token_name(TokenId::GroupStatus) == "group_status"@,
        token_name(TokenId::Idx) == "idx"@,
        token_name(TokenId::JumpKey) == "jump_key"@,
{
}

/// What is configured for a presentation is what is used; a grouped one takes what is configured for
/// it, else what is configured without groups; the defaults stand in for what is not configured at all.
pub proof fn law_configured_templates_are_used(t: TemplatesConfig, g: GroupedTemplatesConfig)
    requires
        t.grouped == Some(g),
    ensures
        ({
            let flat = resolved(Some(t), false);
            let grouped = resolved(Some(t), true);
            &&& t.compact is Some ==> flat.compact == t.compact->0@
            &&& t.compact is None ==> flat.compact == DEFAULT_COMPACT_TEMPLATE@
            &&& g.compact is Some ==> grouped.compact == g.compact->0@
            &&& g.compact is None ==> grouped.compact == flat.compact
            &&& t.tiles is Some ==> flat.tiles == text::texts(t.tiles->0@)
            &&& t.tiles is None ==> flat.tiles == seq![TILE_LINE_1@, TILE_LINE_2@, TILE_LINE_3@]
            &&& g.tiles is Some ==> grouped.tiles == text::texts(g.tiles->0@)
            &&& g.tiles is None && t.tiles is Some ==> grouped.tiles == flat.tiles
            &&& g.tiles is None && t.tiles is None ==> grouped.tiles == seq![GROUPED_TILE_LINE_1@, GROUPED_TILE_LINE_2@]
            &&& t.horizontal is Some ==> flat.horizontal == text::texts(t.horizontal->0@)
            &&& t.horizontal is None ==> flat.horizontal == seq![DEFAULT_COMPACT_TEMPLATE@, TILE_LINE_2@, TILE_LINE_3@]
            &&& grouped.horizontal == flat.horizontal
            &&& g.header is Some ==> grouped.group_header == g.header->0@
            &&& g.header is None ==> grouped.group_header == DEFAULT_GROUP_HEADER_TEMPLATE@
        }),
        ({
            let plain = TemplatesConfig { grouped: None, ..t };
            &&& resolved(Some(plain), true).compact == resolved(Some(plain), false).compact
            &&& resolved(Some(plain), false) == resolved(Some(t), false) || g.header is Some
        }),
        resolved(None, false).compact == DEFAULT_COMPACT_TEMPLATE@,
        resolved(None, true).tiles == seq![GROUPED_TILE_LINE_1@, GROUPED_TILE_LINE_2@],
{
}

/// The defaults, as they are written.
pub proof fn law_defaults_are_written_out()
    ensures
        DEFAULT_COMPACT_TEMPLATE@ == "{status_icon} {primary} {pane_suffix} {fill} {elapsed}"@,
        DEFAULT_GROUP_HEADER_TEMPLATE@ == "{group} {fill} {group_count}"@,
        TILE_LINE_1@ == "{primary} {pane_suffix} {fill} {elapsed}"@,
        TILE_LINE_2@ == "{secondary} {fill} {git_stats}"@,
        TILE_LINE_3@ == "{pane_title} {fill} {pr_number} {pr_checks}"@,
        GROUPED_TILE_LINE_1@ == "{primary} {pane_suffix} {fill} {pr_number} {elapsed}"@,
        GROUPED_TILE_LINE_2@ == "{pane_title} {fill} {pr_checks} {git_stats}"@,
{
}

proof fn lemma_failure_is_first(lines: Seq<LineParse>)
    ensures
        first_failure(lines) <= lines.len(),
        first_failure(lines) < lines.len() ==> lines[first_failure(lines) as int] is Err,
        forall|j: int| 0 <= j < first_failure(lines) ==> (#[trigger] lines[j]) is Ok,
    decreases lines.len(),
{
    if lines.len() > 0 && lines[0] is Ok {
        let rest = lines.skip(1);
        lemma_failure_is_first(rest);
        assert forall|j: int| 0 <= j < first_failure(lines) implies (#[trigger] lines[j]) is Ok by {
            if j > 0 {
                assert(rest[j - 1] == lines[j]);
            }
        }
        if first_failure(rest) < rest.len() {
            assert(rest[first_failure(rest) as int] == lines[first_failure(lines) as int]);
        }
    }
}

/// Lines fail where one of them does, and then by the first that does: the failure names the template
/// and the line, and says what that line's says.
pub proof fn law_the_first_broken_line_is_told(lines: Seq<LineParse>, kind: Seq<char>, k: int)
    requires
        0 <= k < lines.len(),
        lines[k] is Err,
        forall|j: int| 0 <= j < k ==> (#[trigger] lines[j]) is Ok,
    ensures
        lines_error(lines, kind) == Some(
            ErrorModel {
                location: kind + seq!['['] + text::numeral(k as nat) + seq![']'],
                message: (lines[k]->Err_0).message@,
            },
        ),
{
    lemma_first_failure(lines, k);
}

/// Lines that all parse have no failure.
pub proof fn law_whole_lines_do_not_fail(lines: Seq<LineParse>, kind: Seq<char>)
    ensures
        lines_error(lines, kind) is None <==> forall|j: int| 0 <= j < lines.len() ==> (#[trigger] lines[j]) is Ok,
{
    lemma_failure_is_first(lines);
}

proof fn lemma_misplaced_is_first(tokens: Seq<Token>)
    ensures
        first_misplaced(tokens) <= tokens.len(),
        first_misplaced(tokens) < tokens.len() ==> !header_token(tokens[first_misplaced(tokens) as int]),
        forall|j: int| 0 <= j < first_misplaced(tokens) ==> header_token(#[trigger] tokens[j]),
    decreases tokens.len(),
{
    if tokens.len() > 0 && header_token(tokens[0]) {
        let rest = tokens.skip(1);
        lemma_misplaced_is_first(rest);
        assert forall|j: int| 0 <= j < first_misplaced(tokens) implies header_token(#[trigger] tokens[j]) by {
            if j > 0 {
                assert(rest[j - 1] == tokens[j]);
            }
        }
        if first_misplaced(rest) < rest.len() {
            assert(rest[first_misplaced(rest) as int] == tokens[first_misplaced(tokens) as int]);
        }
    }
}

/// A header may hold the fields of a group and text, but no field of an agent: it is refused exactly
/// where it has one, and by the first that it has.
pub proof fn law_headers_hold_no_agent_fields(tokens: Seq<Token>, k: int)
    ensures
        header_error(tokens) is None <==> forall|j: int|
            0 <= j < tokens.len() && (#[trigger] tokens[j]) is Field ==> tokens[j]->Field_0 is Group
                || tokens[j]->Field_0 is GroupCount || tokens[j]->Field_0 is GroupStatus,
        0 <= k < tokens.len() && tokens[k] is Field && !(tokens[k]->Field_0 is Group) && !(
        tokens[k]->Field_0 is GroupCount) && !(tokens[k]->Field_0 is GroupStatus) && (forall|j: int|
            0 <= j < k ==> header_token(#[trigger] tokens[j])) ==> header_error(tokens) == Some(
            ErrorModel {
                location: "group_header"@,
                message: "unsupported token '"@ + token_name(tokens[k]->Field_0) + "'"@,
            },
        ),
{
    lemma_misplaced_is_first(tokens);
    if 0 <= k < tokens.len() && !header_token(tokens[k]) && (forall|j: int| 0 <= j < k ==> header_token(#[trigger] tokens[j])) {
        lemma_first_misplaced(tokens, k);
    }
    if header_error(tokens) is None {
        assert forall|j: int| 0 <= j < tokens.len() && (#[trigger] tokens[j]) is Field implies tokens[j]->Field_0 is Group
            || tokens[j]->Field_0 is GroupCount || tokens[j]->Field_0 is GroupStatus by {
            assert(header_token(tokens[j]));
        }
    }
}

/// Of several failures, that of the compact template is told first, that of the tiles next, then that
/// of the top bar and that of the header.
pub proof fn law_failures_are_told_in_order(parses: TemplateParses)
    ensures
        parses.compact matches Err(e) ==> first_error(parses) == Some(
            ErrorModel { location: "compact"@, message: e.message@ },
        ),
        parses.compact is Ok && lines_error(parses.tiles@, "tiles"@) is Some ==> first_error(parses) == lines_error(
            parses.tiles@,
            "tiles"@,
        ),
        parses.compact is Ok && lines_error(parses.tiles@, "tiles"@) is None && lines_error(
            parses.horizontal@,
            "horizontal"@,
        ) is Some ==> first_error(parses) == lines_error(parses.horizontal@, "horizontal"@),
        parses.compact is Ok && lines_error(parses.tiles@, "tiles"@) is None && lines_error(
            parses.horizontal@,
            "horizontal"@,
        ) is None && (parses.group_header is Err) ==> first_error(parses) == Some(
            ErrorModel { location: "group_header"@, message: (parses.group_header->Err_0).message@ },
        ),
{
}

} // verus!
