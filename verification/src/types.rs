//! Settings, list-normalize modes, and the line-based edit operations that
//! every formatting rule produces.
use vstd::prelude::*;
use crate::text::{spaces, push_all};


verus! {

/// Rule: add empty lines between markdown elements.
#[derive(Debug, Clone)]
pub struct AddEmptyLineBetweenElementsSetting {
    pub enabled: bool,
    pub description: String,
}

impl Default for AddEmptyLineBetweenElementsSetting {
    fn default() -> (r: Self)
        ensures
            r.enabled,
    {
        Self {
            enabled: true,
            description: "Add single empty line between markdown elements".to_string(),
        }
    }
}

/// Rule: format multi-line JSX.
#[derive(Debug, Clone)]
pub struct FormatMultiLineJsxSetting {
    pub enabled: bool,
    pub description: String,
    pub indent_size: usize,
    pub indent_type: Option<String>,
    pub ignore_components: Vec<String>,
    pub preserve_template_literal_indent: bool,
}

impl Default for FormatMultiLineJsxSetting {
    fn default() -> (r: Self)
        ensures
            r.enabled,
            r.indent_size == 2,
            r.indent_type is None,
            r.ignore_components@.len() == 0,
            r.preserve_template_literal_indent,
    {
        Self {
            enabled: true,
            description: "Format JSX/HTML with proper indentation".to_string(),
            indent_size: 2,
            indent_type: None,
            ignore_components: Vec::new(),
            preserve_template_literal_indent: true,
        }
    }
}

/// Formatter configuration for HTML blocks.
#[derive(Debug, Clone)]
pub struct HtmlFormatterConfig {
    pub parser: String,
    pub tab_width: usize,
    pub use_tabs: bool,
}

impl Default for HtmlFormatterConfig {
    fn default() -> (r: Self)
        ensures
            r.tab_width == 2,
            !r.use_tabs,
    {
        Self { parser: "html".to_string(), tab_width: 2, use_tabs: false }
    }
}

/// Rule: format HTML blocks in MDX.
#[derive(Debug, Clone)]
pub struct FormatHtmlBlocksInMdxSetting {
    pub enabled: bool,
    pub description: String,
    pub formatter_config: HtmlFormatterConfig,
}

impl Default for FormatHtmlBlocksInMdxSetting {
    fn default() -> (r: Self)
        ensures
            r.enabled,
            r.formatter_config.tab_width == 2,
    {
        Self {
            enabled: true,
            description: "Format all HTML blocks within MDX using Prettier".to_string(),
            formatter_config: HtmlFormatterConfig::default(),
        }
    }
}

/// Rule: expand single-line JSX.
#[derive(Debug, Clone)]
pub struct ExpandSingleLineJsxSetting {
    pub enabled: bool,
    pub description: String,
    pub props_threshold: usize,
}

impl Default for ExpandSingleLineJsxSetting {
    fn default() -> (r: Self)
        ensures
            !r.enabled,
            r.props_threshold == 2,
    {
        Self {
            enabled: false,
            description: "Expand single-line JSX components with multiple props to multi-line".to_string(),
            props_threshold: 2,
        }
    }
}

/// Rule: indent JSX content.
#[derive(Debug, Clone)]
pub struct IndentJsxContentSetting {
    pub enabled: bool,
    pub description: String,
    pub indent_size: usize,
    pub indent_type: Option<String>,
    pub container_components: Vec<String>,
}

impl Default for IndentJsxContentSetting {
    fn default() -> (r: Self)
        ensures
            !r.enabled,
            r.indent_size == 2,
            r.indent_type is None,
            r.container_components@.len() == 0,
    {
        Self {
            enabled: false,
            description: "Add indentation to content inside JSX components".to_string(),
            indent_size: 2,
            indent_type: None,
            container_components: Vec::new(),
        }
    }
}

/// Rule: add empty lines in block JSX.
#[derive(Debug, Clone)]
pub struct AddEmptyLinesInBlockJsxSetting {
    pub enabled: bool,
    pub description: String,
    pub block_components: Vec<String>,
}

impl Default for AddEmptyLinesInBlockJsxSetting {
    fn default() -> (r: Self)
        ensures
            r.enabled,
            r.block_components@.len() == 0,
    {
        Self {
            enabled: true,
            description: "Add empty lines after opening and before closing tags in block JSX components".to_string(),
            block_components: Vec::new(),
        }
    }
}

/// Rule: format YAML frontmatter.
#[derive(Debug, Clone)]
pub struct FormatYamlFrontmatterSetting {
    pub enabled: bool,
    pub description: String,
    pub indent: usize,
    pub line_width: usize,
    pub quoting_type: String,
    pub force_quotes: bool,
    pub no_compat_mode: bool,
    pub fix_unsafe_values: bool,
}

impl Default for FormatYamlFrontmatterSetting {
    fn default() -> (r: Self)
        ensures
            r.enabled,
            r.indent == 2,
            r.line_width == 100,
            r.quoting_type@ == seq!['"'],
            !r.force_quotes,
            r.no_compat_mode,
            r.fix_unsafe_values,
    {
        let q = "\"".to_string();
        proof {
            reveal_strlit("\"");
        }
        assert(q@ =~= seq!['"']);
        Self {
            enabled: true,
            description: "Format YAML frontmatter using proper YAML formatting rules".to_string(),
            indent: 2,
            line_width: 100,
            quoting_type: q,
            force_quotes: false,
            no_compat_mode: true,
            fix_unsafe_values: true,
        }
    }
}


/// Rule: preserve Docusaurus admonitions.
#[derive(Debug, Clone)]
pub struct PreserveAdmonitionsSetting {
    pub enabled: bool,
    pub description: String,
}

impl Default for PreserveAdmonitionsSetting {
    fn default() -> (r: Self)
        ensures
            r.enabled,
    {
        Self {
            enabled: true,
            description: "Keep Docusaurus admonitions (:::note, :::tip, etc.) intact".to_string(),
        }
    }
}

/// Rule: error handling.
#[derive(Debug, Clone)]
pub struct ErrorHandlingSetting {
    pub throw_on_error: bool,
    pub description: String,
}

impl Default for ErrorHandlingSetting {
    fn default() -> (r: Self)
        ensures
            !r.throw_on_error,
    {
        Self {
            throw_on_error: false,
            description: "How to handle parsing errors - return original or throw".to_string(),
        }
    }
}

/// Tighten-list-continuations mode.
#[derive(Debug, Clone, Copy, PartialEq, Eq, Structural)]
pub enum TightenListContinuationsMode {
    Off,
    Heuristic,
    Aggressive,
}

impl Default for TightenListContinuationsMode {
    fn default() -> (r: Self)
        ensures
            r == TightenListContinuationsMode::Heuristic,
    {
        TightenListContinuationsMode::Heuristic
    }
}

/// Tighten-list-item-spacing mode.
#[derive(Debug, Clone, Copy, PartialEq, Eq, Structural)]
pub enum TightenListItemSpacingMode {
    Off,
    Heuristic,
    Aggressive,
}

impl Default for TightenListItemSpacingMode {
    fn default() -> (r: Self)
        ensures
            r == TightenListItemSpacingMode::Heuristic,
    {
        TightenListItemSpacingMode::Heuristic
    }
}

/// Recover-escaped-code-in-lists mode.
#[derive(Debug, Clone, Copy, PartialEq, Eq, Structural)]
pub enum RecoverEscapedCodeMode {
    Off,
    Safe,
    Aggressive,
}

impl Default for RecoverEscapedCodeMode {
    fn default() -> (r: Self)
        ensures
            r == RecoverEscapedCodeMode::Safe,
    {
        RecoverEscapedCodeMode::Safe
    }
}

/// Recover-escaped-tables-in-lists mode.
#[derive(Debug, Clone, Copy, PartialEq, Eq, Structural)]
pub enum RecoverEscapedTablesMode {
    Off,
    Safe,
    Aggressive,
}

impl Default for RecoverEscapedTablesMode {
    fn default() -> (r: Self)
        ensures
            r == RecoverEscapedTablesMode::Safe,
    {
        RecoverEscapedTablesMode::Safe
    }
}

/// Recover-escaped-paragraphs-in-lists mode.
#[derive(Debug, Clone, Copy, PartialEq, Eq, Structural)]
pub enum RecoverEscapedParagraphsMode {
    Off,
    Heuristic,
    Aggressive,
}

impl Default for RecoverEscapedParagraphsMode {
    fn default() -> (r: Self)
        ensures
            r == RecoverEscapedParagraphsMode::Off,
    {
        RecoverEscapedParagraphsMode::Off
    }
}

/// Shape of a list item's content.
#[derive(Debug, Clone, Copy, PartialEq, Eq, Structural)]
pub enum ListItemShape {
    /// Only paragraph children (or empty).
    ParagraphsOnly,
    /// At least one fenced code block child (and no table/sublist).
    HasCodeFence,
    /// At least one GFM table child (and no sublist).
    HasTable,
    /// At least one nested list child (and nothing else interesting).
    HasSublist,
    /// Any combination of the above.
    Mixed,
}

/// The list-normalize rule settings.
#[derive(Debug, Clone, Copy, PartialEq, Eq, Structural)]
pub struct ListNormalizeSettings {
    pub tighten_list_continuations: TightenListContinuationsMode,
    pub tighten_list_item_spacing: TightenListItemSpacingMode,
    pub recover_escaped_code_in_lists: RecoverEscapedCodeMode,
    pub recover_escaped_tables_in_lists: RecoverEscapedTablesMode,
    pub recover_escaped_paragraphs_in_lists: RecoverEscapedParagraphsMode,
}

impl Default for ListNormalizeSettings {
    fn default() -> (r: Self)
        ensures
            r.tighten_list_continuations == TightenListContinuationsMode::Heuristic,
            r.tighten_list_item_spacing == TightenListItemSpacingMode::Heuristic,
            r.recover_escaped_code_in_lists == RecoverEscapedCodeMode::Safe,
            r.recover_escaped_tables_in_lists == RecoverEscapedTablesMode::Safe,
            r.recover_escaped_paragraphs_in_lists == RecoverEscapedParagraphsMode::Off,
    {
        ListNormalizeSettings {
            tighten_list_continuations: TightenListContinuationsMode::default(),
            tighten_list_item_spacing: TightenListItemSpacingMode::default(),
            recover_escaped_code_in_lists: RecoverEscapedCodeMode::default(),
            recover_escaped_tables_in_lists: RecoverEscapedTablesMode::default(),
            recover_escaped_paragraphs_in_lists: RecoverEscapedParagraphsMode::default(),
        }
    }
}

/// Complete formatter settings.
#[derive(Debug, Clone)]
pub struct FormatterSettings {
    pub add_empty_line_between_elements: AddEmptyLineBetweenElementsSetting,
    pub format_multi_line_jsx: FormatMultiLineJsxSetting,
    pub format_html_blocks_in_mdx: FormatHtmlBlocksInMdxSetting,
    pub expand_single_line_jsx: ExpandSingleLineJsxSetting,
    pub indent_jsx_content: IndentJsxContentSetting,
    pub add_empty_lines_in_block_jsx: AddEmptyLinesInBlockJsxSetting,
    pub format_yaml_frontmatter: FormatYamlFrontmatterSetting,
    pub preserve_admonitions: PreserveAdmonitionsSetting,
    pub error_handling: ErrorHandlingSetting,
    /// List normalize rule bundle.
    pub list_normalize: ListNormalizeSettings,
}

impl Default for FormatterSettings {
    fn default() -> (r: Self)
        ensures
            r.add_empty_line_between_elements.enabled,
            r.format_multi_line_jsx.enabled,
            r.format_multi_line_jsx.indent_size == 2,
            r.format_multi_line_jsx.ignore_components@.len() == 0,
            r.format_multi_line_jsx.preserve_template_literal_indent,
            r.format_html_blocks_in_mdx.enabled,
            r.format_html_blocks_in_mdx.formatter_config.tab_width == 2,
            !r.expand_single_line_jsx.enabled,
            r.expand_single_line_jsx.props_threshold == 2,
            !r.indent_jsx_content.enabled,
            r.indent_jsx_content.indent_size == 2,
            r.add_empty_lines_in_block_jsx.enabled,
            r.add_empty_lines_in_block_jsx.block_components@.len() == 0,
            r.format_yaml_frontmatter.enabled,
            r.format_yaml_frontmatter.indent == 2,
            r.format_yaml_frontmatter.quoting_type@ == seq!['"'],
            !r.format_yaml_frontmatter.force_quotes,
            r.format_yaml_frontmatter.fix_unsafe_values,
            r.preserve_admonitions.enabled,
            !r.error_handling.throw_on_error,
            r.list_normalize == ListNormalizeSettings::default_spec(),
    {
        FormatterSettings {
            add_empty_line_between_elements: AddEmptyLineBetweenElementsSetting::default(),
            format_multi_line_jsx: FormatMultiLineJsxSetting::default(),
            format_html_blocks_in_mdx: FormatHtmlBlocksInMdxSetting::default(),
            expand_single_line_jsx: ExpandSingleLineJsxSetting::default(),
            indent_jsx_content: IndentJsxContentSetting::default(),
            add_empty_lines_in_block_jsx: AddEmptyLinesInBlockJsxSetting::default(),
            format_yaml_frontmatter: FormatYamlFrontmatterSetting::default(),
            preserve_admonitions: PreserveAdmonitionsSetting::default(),
            error_handling: ErrorHandlingSetting::default(),
            list_normalize: ListNormalizeSettings::default(),
        }
    }
}

impl ListNormalizeSettings {
    /// The default list-normalize modes, as a value.
    pub open spec fn default_spec() -> ListNormalizeSettings {
        ListNormalizeSettings {
            tighten_list_continuations: TightenListContinuationsMode::Heuristic,
            tighten_list_item_spacing: TightenListItemSpacingMode::Heuristic,
            recover_escaped_code_in_lists: RecoverEscapedCodeMode::Safe,
            recover_escaped_tables_in_lists: RecoverEscapedTablesMode::Safe,
            recover_escaped_paragraphs_in_lists: RecoverEscapedParagraphsMode::Off,
        }
    }
}

/// Formatter operations: line-based edits to apply to the source text.
/// Line numbers are 0-indexed.
#[derive(Debug, Clone)]
pub enum FormatterOperation {
    InsertLine { start_line: usize, content: String },
    ReplaceLines { start_line: usize, end_line: usize, lines: Vec<String> },
    IndentLine { start_line: usize, indent: String },
    FixListIndent { start_line: usize, indent: String },
    ReplaceHtmlBlock { start_line: usize, end_line: usize, content: String },
}

/// Decimal digits of a natural number (what `usize::to_string` prints).
pub open spec fn decimal(n: nat) -> Seq<char>
    decreases n,
{
    if n < 10 {
        seq![digit_char(n)]
    } else {
        decimal(n / 10).push(digit_char(n % 10))
    }
}

pub open spec fn digit_char(d: nat) -> char {
    ((d + 48) as u32) as char
}

/// Executable `decimal`.
pub fn decimal_vec(n: usize) -> (r: Vec<char>)
    ensures
        r@ == decimal(n as nat),
    decreases n,
{
    if n < 10 {
        let c = digit(n);
        let mut v: Vec<char> = Vec::new();
        v.push(c);
        v
    } else {
        let mut v = decimal_vec(n / 10);
        v.push(digit(n % 10));
        v
    }
}

fn digit(d: usize) -> (c: char)
    requires
        d < 10,
    ensures
        c == digit_char(d as nat),
{
    if d == 0 { '0' } else if d == 1 { '1' } else if d == 2 { '2' } else if d == 3 { '3' }
    else if d == 4 { '4' } else if d == 5 { '5' } else if d == 6 { '6' } else if d == 7 { '7' }
    else if d == 8 { '8' } else { '9' }
}

impl FormatterOperation {
    /// The start line of any operation.
    pub open spec fn start_spec(self) -> nat {
        match self {
            FormatterOperation::InsertLine { start_line, .. } => start_line as nat,
            FormatterOperation::ReplaceLines { start_line, .. } => start_line as nat,
            FormatterOperation::IndentLine { start_line, .. } => start_line as nat,
            FormatterOperation::FixListIndent { start_line, .. } => start_line as nat,
            FormatterOperation::ReplaceHtmlBlock { start_line, .. } => start_line as nat,
        }
    }

    /// The end line of a range operation, the start line of the others.
    pub open spec fn end_spec(self) -> nat {
        match self {
            FormatterOperation::ReplaceLines { end_line, .. } => end_line as nat,
            FormatterOperation::ReplaceHtmlBlock { end_line, .. } => end_line as nat,
            _ => self.start_spec(),
        }
    }

    /// Is this a range replacement (`ReplaceLines` or `ReplaceHtmlBlock`)?
    pub open spec fn is_replacement(self) -> bool {
        self is ReplaceLines || self is ReplaceHtmlBlock
    }

    /// The operation's type tag.
    pub open spec fn kind_name_spec(self) -> Seq<char> {
        match self {
            FormatterOperation::InsertLine { .. } => seq!['i','n','s','e','r','t','L','i','n','e'],
            FormatterOperation::ReplaceLines { .. } => seq!['r','e','p','l','a','c','e','L','i','n','e','s'],
            FormatterOperation::IndentLine { .. } => seq!['i','n','d','e','n','t','L','i','n','e'],
            FormatterOperation::FixListIndent { .. } => seq!['f','i','x','L','i','s','t','I','n','d','e','n','t'],
            FormatterOperation::ReplaceHtmlBlock { .. } => seq!['r','e','p','l','a','c','e','H','t','m','l','B','l','o','c','k'],
        }
    }

    /// `type-start-end`.
    pub open spec fn dedup_key_spec(self) -> Seq<char> {
        self.kind_name_spec() + seq!['-'] + decimal(self.start_spec()) + seq!['-'] + decimal(
            self.end_spec(),
        )
    }

    /// Get the start line of the operation (for sorting).
    pub fn start_line(&self) -> (r: usize)
        ensures
            r == self.start_spec(),
    {
        match self {
            FormatterOperation::InsertLine { start_line, .. } => *start_line,
            FormatterOperation::ReplaceLines { start_line, .. } => *start_line,
            FormatterOperation::IndentLine { start_line, .. } => *start_line,
            FormatterOperation::FixListIndent { start_line, .. } => *start_line,
            FormatterOperation::ReplaceHtmlBlock { start_line, .. } => *start_line,
        }
    }

    /// Get end line (for range operations) or start_line for single-line ops.
    pub fn end_line(&self) -> (r: usize)
        ensures
            r == self.end_spec(),
    {
        match self {
            FormatterOperation::ReplaceLines { end_line, .. } => *end_line,
            FormatterOperation::ReplaceHtmlBlock { end_line, .. } => *end_line,
            _ => self.start_line(),
        }
    }

    /// The operation's type tag (`insertLine`, `replaceLines`, ...).
    pub fn kind_name(&self) -> (r: &'static str)
        ensures
            r@ == self.kind_name_spec(),
    {
        match self {
            FormatterOperation::InsertLine { .. } => {
                proof { reveal_strlit("insertLine"); }
                "insertLine"
            },
            FormatterOperation::ReplaceLines { .. } => {
                proof { reveal_strlit("replaceLines"); }
                "replaceLines"
            },
            FormatterOperation::IndentLine { .. } => {
                proof { reveal_strlit("indentLine"); }
                "indentLine"
            },
            FormatterOperation::FixListIndent { .. } => {
                proof { reveal_strlit("fixListIndent"); }
                "fixListIndent"
            },
            FormatterOperation::ReplaceHtmlBlock { .. } => {
                proof { reveal_strlit("replaceHtmlBlock"); }
                "replaceHtmlBlock"
            },
        }
    }

    /// Create a deduplication key: `type-start-end`.
    pub fn dedup_key(&self) -> (r: String)
        ensures
            r@ == self.dedup_key_spec(),
    {
        let mut v: Vec<char> = crate::text::chars_of(self.kind_name());
        v.push('-');
        let d1 = decimal_vec(self.start_line());
        push_all(&mut v, &d1);
        v.push('-');
        let d2 = decimal_vec(self.end_line());
        push_all(&mut v, &d2);
        crate::text::string_of(&v)
    }
}


/// Decimal digits are ASCII digits; numbers from 10 up have at least two.
pub proof fn lemma_decimal_digits(n: nat)
    ensures
        decimal(n).len() >= 1,
        n >= 10 ==> decimal(n).len() >= 2,
        forall|i: int| 0 <= i < decimal(n).len() ==> '0' <= #[trigger] decimal(n)[i] <= '9',
    decreases n,
{
    if n >= 10 {
        lemma_decimal_digits(n / 10);
        let d = decimal(n / 10);
        assert forall|i: int| 0 <= i < decimal(n).len() implies '0' <= #[trigger] decimal(n)[i] <= '9' by {
            if i < d.len() {
                assert(decimal(n)[i] == d[i]);
            }
        }
    }
}

/// Distinct numbers print differently.
pub proof fn lemma_decimal_injective(a: nat, b: nat)
    requires
        decimal(a) == decimal(b),
    ensures
        a == b,
    decreases a,
{
    lemma_decimal_digits(a);
    lemma_decimal_digits(b);
    if a < 10 && b < 10 {
        assert(decimal(a)[0] == digit_char(a));
        assert(decimal(b)[0] == digit_char(b));
        assert((digit_char(a) as u32) == a + 48);
        assert((digit_char(b) as u32) == b + 48);
    } else if a >= 10 && b >= 10 {
        let da = decimal(a);
        let db = decimal(b);
        assert(da.last() == digit_char(a % 10));
        assert(db.last() == digit_char(b % 10));
        assert((digit_char(a % 10) as u32) == a % 10 + 48);
        assert((digit_char(b % 10) as u32) == b % 10 + 48);
        assert(da.drop_last() == decimal(a / 10));
        assert(db.drop_last() == decimal(b / 10));
        lemma_decimal_injective(a / 10, b / 10);
    } else {
        assert(decimal(a).len() != decimal(b).len());
    }
}

} // verus!
