//! Turns a repository into one markdown document: which files go in, what
//! each contributes, and how the ignore files are kept up to date.

use crate::file_selection::{filter_files, kept_files, listed_files, nonblank};
use crate::matching::{any_glob_matches, glob_match, glob_matches, matches_any_pattern, text_of};
use crate::text::{
    all_whitespace, chars_of, copy_texts, extend_chars, is_blank, lemma_text_views_push, lines, matches_at, occurs_at,
    push_str_chars, rows, same_chars, split_lines, string_of, text_views, token_count, trim, trim_chars,
    trim_end, trim_end_chars,
};
use crate::token_cleaner::{clean_and_redact, clean_and_redact_model, count_tokens};
use vstd::prelude::*;

verus! {

/// The views of a list of string literals.
pub open spec fn literal_views(items: Seq<&'static str>) -> Seq<Seq<char>> {
    Seq::new(items.len(), |i: int| items[i]@)
}

/// Owned copies of a list of string literals.
pub fn owned_strings(items: &Vec<&'static str>) -> (owned: Vec<String>)
    ensures
        text_views(owned@) == literal_views(items@),
{
    let mut owned: Vec<String> = Vec::new();
    let mut i: usize = 0;
    assert(text_views(owned@) =~= literal_views(items@).take(0));
    while i < items.len()
        invariant
            i <= items.len(),
            text_views(owned@) == literal_views(items@).take(i as int),
        decreases items.len() - i,
    {
        let item = items[i].to_owned();
        proof {
            lemma_text_views_push(owned@, item);
            assert(literal_views(items@).take(i as int).push(item@) =~= literal_views(items@).take(
                i + 1,
            ));
        }
        owned.push(item);
        i += 1;
    }
    assert(literal_views(items@).take(items.len() as int) =~= literal_views(items@));
    owned
}

/// The file types that can be read by text recognition: images and PDF.
pub open spec fn ocr_file_types() -> Seq<Seq<char>> {
    seq![".jpg"@, ".jpeg"@, ".png"@, ".gif"@, ".bmp"@, ".webp"@, ".tiff"@, ".pdf"@]
}

/// The file types that are never read: fonts, archives, binaries, media
/// and databases.
pub open spec fn binary_file_types() -> Seq<Seq<char>> {
    seq![
        ".svg"@,
        ".ico"@,
        ".ttf"@,
        ".woff"@,
        ".woff2"@,
        ".eot"@,
        ".otf"@,
        ".lock"@,
        ".lockb"@,
        ".exe"@,
        ".dll"@,
        ".so"@,
        ".dylib"@,
        ".bin"@,
        ".dat"@,
        ".pyc"@,
        ".pyo"@,
        ".class"@,
        ".jar"@,
        ".zip"@,
        ".tar"@,
        ".gz"@,
        ".rar"@,
        ".7z"@,
        ".mp3"@,
        ".mp4"@,
        ".avi"@,
        ".mov"@,
        ".wav"@,
        ".db"@,
        ".sqlite"@,
        ".sqlite3"@,
    ]
}

/// The file types excluded by default: those never read, and with them,
/// where no text recognition is at hand, those that only it could read.
pub open spec fn default_type_exclusions(text_recognition: bool) -> Seq<Seq<char>> {
    if text_recognition {
        binary_file_types()
    } else {
        ocr_file_types() + binary_file_types()
    }
}

/// The file patterns excluded by default.
pub open spec fn default_pattern_exclusions() -> Seq<Seq<char>> {
    seq![
        "**/.*rc"@,
        "**/.*rc.{js,json,yaml,yml}"@,
        "**/*.config.{js,ts}"@,
        "**/tsconfig.json"@,
        "**/tsconfig*.json"@,
        "**/jsconfig.json"@,
        "**/jsconfig*.json"@,
        "**/package-lock.json"@,
        "**/.prettierignore"@,
        "**/.dockerignore"@,
        "**/.env*"@,
        "**/*.vars"@,
        "**/secrets.*"@,
        "**/.git*"@,
        "**/.hg*"@,
        "**/.svn*"@,
        "**/CVS"@,
        "**/.github/"@,
        "**/.gitlab-ci.yml"@,
        "**/azure-pipelines.yml"@,
        "**/jenkins*"@,
        "**/node_modules/"@,
        "**/target/"@,
        "**/__pycache__/"@,
        "**/venv/"@,
        "**/.venv/"@,
        "**/env/"@,
        "**/build/"@,
        "**/dist/"@,
        "**/out/"@,
        "**/bin/"@,
        "**/obj/"@,
        "**/README*"@,
        "**/CHANGELOG*"@,
        "**/CONTRIBUTING*"@,
        "**/LICENSE*"@,
        "**/docs/"@,
        "**/documentation/"@,
        "**/.idea/"@,
        "**/.vscode/"@,
        "**/.eclipse/"@,
        "**/.settings/"@,
        "**/.zed/"@,
        "**/.cursor/"@,
        "**/.project"@,
        "**/.classpath"@,
        "**/.factorypath"@,
        "**/test{s,}/"@,
        "**/spec/"@,
        "**/fixtures/"@,
        "**/testdata/"@,
        "**/__tests__/"@,
        "**/*.{test,spec}.*"@,
        "**/coverage/"@,
        "**/jest.config.*"@,
        "**/logs/"@,
        "**/tmp/"@,
        "**/temp/"@,
        "**/*.log"@,
    ]
}

/// The file types that can be read by text recognition.
pub fn ocr_types() -> (types: Vec<&'static str>)
    ensures
        literal_views(types@) == ocr_file_types(),
{
    let types = vec![".jpg", ".jpeg", ".png", ".gif", ".bmp", ".webp", ".tiff", ".pdf"];
    assert(literal_views(types@) =~= ocr_file_types());
    types
}

/// The file types that are never read.
pub fn binary_types() -> (types: Vec<&'static str>)
    ensures
        literal_views(types@) == binary_file_types(),
{
    let types = vec![
        ".svg",
        ".ico",
        ".ttf",
        ".woff",
        ".woff2",
        ".eot",
        ".otf",
        ".lock",
        ".lockb",
        ".exe",
        ".dll",
        ".so",
        ".dylib",
        ".bin",
        ".dat",
        ".pyc",
        ".pyo",
        ".class",
        ".jar",
        ".zip",
        ".tar",
        ".gz",
        ".rar",
        ".7z",
        ".mp3",
        ".mp4",
        ".avi",
        ".mov",
        ".wav",
        ".db",
        ".sqlite",
        ".sqlite3",
    ];
    assert(literal_views(types@) =~= binary_file_types());
    types
}

/// The file patterns excluded by default.
pub fn default_file_exclusions() -> (patterns: Vec<String>)
    ensures
        text_views(patterns@) == default_pattern_exclusions(),
{
    let patterns = vec![
        "**/.*rc",
        "**/.*rc.{js,json,yaml,yml}",
        "**/*.config.{js,ts}",
        "**/tsconfig.json",
        "**/tsconfig*.json",
        "**/jsconfig.json",
        "**/jsconfig*.json",
        "**/package-lock.json",
        "**/.prettierignore",
        "**/.dockerignore",
        "**/.env*",
        "**/*.vars",
        "**/secrets.*",
        "**/.git*",
        "**/.hg*",
        "**/.svn*",
        "**/CVS",
        "**/.github/",
        "**/.gitlab-ci.yml",
        "**/azure-pipelines.yml",
        "**/jenkins*",
        "**/node_modules/",
        "**/target/",
        "**/__pycache__/",
        "**/venv/",
        "**/.venv/",
        "**/env/",
        "**/build/",
        "**/dist/",
        "**/out/",
        "**/bin/",
        "**/obj/",
        "**/README*",
        "**/CHANGELOG*",
        "**/CONTRIBUTING*",
        "**/LICENSE*",
        "**/docs/",
        "**/documentation/",
        "**/.idea/",
        "**/.vscode/",
        "**/.eclipse/",
        "**/.settings/",
        "**/.zed/",
        "**/.cursor/",
        "**/.project",
        "**/.classpath",
        "**/.factorypath",
        "**/test{s,}/",
        "**/spec/",
        "**/fixtures/",
        "**/testdata/",
        "**/__tests__/",
        "**/*.{test,spec}.*",
        "**/coverage/",
        "**/jest.config.*",
        "**/logs/",
        "**/tmp/",
        "**/temp/",
        "**/*.log",
    ];
    assert(literal_views(patterns@) =~= default_pattern_exclusions());
    owned_strings(&patterns)
}

/// The file types excluded by default, with or without text recognition at
/// hand.
pub fn default_file_type_exclusions(text_recognition: bool) -> (types: Vec<String>)
    ensures
        text_views(types@) == default_type_exclusions(text_recognition),
{
    let binary = owned_strings(&binary_types());
    if text_recognition {
        return binary;
    }
    let mut types = owned_strings(&ocr_types());
    let mut rest = binary;
    let ghost first = text_views(types@);
    let ghost second = text_views(rest@);
    types.append(&mut rest);
    assert(text_views(types@) =~= first + second);
    types
}

/// Configuration that controls how markdown is generated.
pub struct MarkdownGeneratorOptions {
    pub dir: String,
    pub output_file_path: String,
    pub file_type_exclusions: Vec<String>,
    pub file_exclusions: Vec<String>,
    pub verbose: bool,
}

impl MarkdownGeneratorOptions {
    /// The default options, with or without text recognition at hand: the
    /// current directory, `prompt.md`, the default exclusions, verbose.
    pub fn for_platform(text_recognition: bool) -> (options: Self)
        ensures
            options.dir@ == "."@,
            options.output_file_path@ == "prompt.md"@,
            text_views(options.file_type_exclusions@) == default_type_exclusions(text_recognition),
            text_views(options.file_exclusions@) == default_pattern_exclusions(),
            options.verbose,
    {
        MarkdownGeneratorOptions {
            dir: ".".to_owned(),
            output_file_path: "prompt.md".to_owned(),
            file_type_exclusions: default_file_type_exclusions(text_recognition),
            file_exclusions: default_file_exclusions(),
            verbose: true,
        }
    }
}

impl Default for MarkdownGeneratorOptions {
    /// The default options where no text recognition is at hand.
    fn default() -> (options: Self)
        ensures
            options.dir@ == "."@,
            options.output_file_path@ == "prompt.md"@,
            text_views(options.file_type_exclusions@) == default_type_exclusions(false),
            text_views(options.file_exclusions@) == default_pattern_exclusions(),
            options.verbose,
    {
        MarkdownGeneratorOptions::for_platform(false)
    }
}

/// Result returned after a markdown generation run.
#[derive(Debug, Clone)]
pub struct MarkdownResult {
    pub success: bool,
    pub token_count: Option<usize>,
    pub error: Option<String>,
}

/// `text` is one of `texts`.
pub open spec fn holds_text(texts: Seq<Seq<char>>, text: Seq<char>) -> bool {
    exists|i: int| 0 <= i < texts.len() && #[trigger] texts[i] == text
}

/// A line of an ignore file is a pattern when, trimmed, it is not empty
/// and does not begin with `#`.
pub open spec fn is_pattern_line(trimmed: Seq<char>) -> bool {
    trimmed.len() > 0 && trimmed[0] != '#'
}

/// A pattern stands for itself when it begins with `/` or with `**`.
pub open spec fn is_anchored(pattern: Seq<char>) -> bool {
    occurs_at(pattern, "/"@, 0) || occurs_at(pattern, "**"@, 0)
}

/// The pattern as it counts from the root: itself where it is anchored,
/// else under the directory of its ignore file.
pub open spec fn placed_pattern(dir: Seq<char>, pattern: Seq<char>) -> Seq<char> {
    if is_anchored(pattern) {
        pattern
    } else {
        dir + "/"@ + pattern
    }
}

/// The patterns that the lines `ls` of an ignore file in `dir` add.
pub open spec fn ignore_patterns(dir: Seq<char>, ls: Seq<Seq<char>>) -> Seq<Seq<char>>
    decreases ls.len(),
{
    if ls.len() == 0 {
        Seq::empty()
    } else {
        let before = ignore_patterns(dir, ls.drop_last());
        let pattern = trim(ls.last());
        if is_pattern_line(pattern) {
            before.push(placed_pattern(dir, pattern))
        } else {
            before
        }
    }
}

/// The patterns that an ignore file with this content adds, seen from the
/// root, where `ignore_dir` is the directory of the file under the root.
pub fn ignore_file_patterns(ignore_dir: &str, content: &str) -> (patterns: Vec<String>)
    ensures
        text_views(patterns@) == ignore_patterns(ignore_dir@, lines(content@)),
{
    let all = split_lines(&chars_of(content));
    let ghost ls = rows(all@);
    let slash = chars_of("/");
    let stars = chars_of("**");
    let mut patterns: Vec<String> = Vec::new();
    let mut i: usize = 0;
    assert(ls.take(0) =~= Seq::<Seq<char>>::empty());
    assert(text_views(patterns@) =~= Seq::<Seq<char>>::empty());
    while i < all.len()
        invariant
            i <= all.len(),
            ls == rows(all@),
            slash@ == "/"@,
            stars@ == "**"@,
            text_views(patterns@) == ignore_patterns(ignore_dir@, ls.take(i as int)),
        decreases all.len() - i,
    {
        proof {
            assert(ls.take(i + 1).drop_last() =~= ls.take(i as int));
            assert(ls.take(i + 1).last() == all@[i as int]@);
        }
        let pattern = trim_chars(&all[i]);
        if pattern.len() > 0 && pattern[0] != '#' {
            let placed = if matches_at(&pattern, &slash, 0) || matches_at(&pattern, &stars, 0) {
                string_of(&pattern)
            } else {
                let mut out = chars_of(ignore_dir);
                extend_chars(&mut out, &slash);
                extend_chars(&mut out, &pattern);
                string_of(&out)
            };
            proof {
                lemma_text_views_push(patterns@, placed);
            }
            patterns.push(placed);
        }
        i += 1;
    }
    assert(ls.take(all.len() as int) =~= ls);
    patterns
}

/// A line of `content`, trimmed, is `entry`.
pub open spec fn names_entry(content: Seq<char>, entry: Seq<char>) -> bool {
    exists|i: int| 0 <= i < lines(content).len() && trim(#[trigger] lines(content)[i]) == entry
}

/// Whether a line of `content`, trimmed, is `entry`.
pub fn has_entry(content: &str, entry: &str) -> (found: bool)
    ensures
        found == names_entry(content@, entry@),
{
    let all = split_lines(&chars_of(content));
    let wanted = chars_of(entry);
    let mut i: usize = 0;
    while i < all.len()
        invariant
            i <= all.len(),
            rows(all@) == lines(content@),
            wanted@ == entry@,
            forall|k: int| 0 <= k < i ==> trim(#[trigger] lines(content@)[k]) != entry@,
        decreases all.len() - i,
    {
        assert(lines(content@)[i as int] == all@[i as int]@);
        let line = trim_chars(&all[i]);
        if same_chars(&line, &wanted) {
            return true;
        }
        i += 1;
    }
    false
}

/// `content`, ended with a line feed unless it is empty or has one.
pub open spec fn line_ended(content: Seq<char>) -> Seq<char> {
    if content.len() > 0 && content.last() != '\n' {
        content.push('\n')
    } else {
        content
    }
}

/// `content` with one more line for `entry`, where it is needed.
pub open spec fn with_entry(content: Seq<char>, entry: Seq<char>, needed: bool) -> Seq<char> {
    if needed {
        content + entry + "\n"@
    } else {
        content
    }
}

/// What `.gitignore` has to become: with `prompt.md`, `todo` and
/// `embeddings.json` added, each on a line of its own, where the content
/// does not name them; `None` where it names all three.
pub open spec fn gitignore_model(content: Seq<char>) -> Option<Seq<char>> {
    let prompt = !names_entry(content, "prompt.md"@);
    let todo = !names_entry(content, "todo"@);
    let embeddings = !names_entry(content, "embeddings.json"@);
    if prompt || todo || embeddings {
        Some(
            with_entry(
                with_entry(with_entry(line_ended(content), "prompt.md"@, prompt), "todo"@, todo),
                "embeddings.json"@,
                embeddings,
            ),
        )
    } else {
        None
    }
}

/// Ends `content` with a line feed unless it is empty or has one.
fn end_line(content: &mut Vec<char>)
    ensures
        final(content)@ == line_ended(old(content)@),
{
    let n = content.len();
    if n > 0 && content[n - 1] != '\n' {
        content.push('\n');
    }
}

/// Adds a line for `entry` where it is needed.
fn add_entry(content: &mut Vec<char>, entry: &str, needed: bool)
    ensures
        final(content)@ == with_entry(old(content)@, entry@, needed),
{
    if needed {
        push_str_chars(content, entry);
        push_str_chars(content, "\n");
        assert(content@ =~= old(content)@ + entry@ + "\n"@);
    }
}

/// The content of the root ignore file and whether it has to be written:
/// a new file names `todo`, `prompt.md` and `embeddings.json`; a file
/// that does not name `prompt.md` gets a line for it; any other stays.
pub open spec fn root_ignore_model(existing: Option<Seq<char>>) -> (Seq<char>, bool) {
    match existing {
        None => ("todo\nprompt.md\nembeddings.json"@, true),
        Some(content) => if names_entry(content, "prompt.md"@) {
            (content, false)
        } else {
            (line_ended(content) + "prompt.md\n"@, true)
        },
    }
}

/// What a file contributes to the document: its content, cleaned and
/// redacted, without the whitespace at its end.
pub open spec fn file_content_model(raw: Seq<char>) -> Seq<char> {
    trim_end(clean_and_redact_model(raw))
}

/// The section of one file: a heading with its path, and its trimmed
/// content between fences.
pub open spec fn file_section(file: Seq<char>, content: Seq<char>) -> Seq<char> {
    "## "@ + file + "\n~~~\n"@ + trim(content) + "\n~~~\n\n"@
}

/// The markdown for the files: a title, then a section for each file whose
/// content was read and is not blank.
pub open spec fn markdown_model(files: Seq<(String, Option<String>)>) -> Seq<char>
    decreases files.len(),
{
    if files.len() == 0 {
        "# Project Files\n\n"@
    } else {
        let before = markdown_model(files.drop_last());
        match files.last().1 {
            Some(content) => if is_blank(content@) {
                before
            } else {
                before + file_section(files.last().0@, content@)
            },
            None => before,
        }
    }
}

/// The document: the markdown of the files, a rule, and the todo notes.
pub open spec fn document_model(code_markdown: Seq<char>, todos: Seq<char>) -> Seq<char> {
    code_markdown + "\n---\n\n"@ + todos + "\n"@
}

/// `a` comes no later than `b` when texts are ordered by their characters,
/// from the first on, a text before every longer one that begins with it.
pub open spec fn text_le(a: Seq<char>, b: Seq<char>) -> bool
    decreases a.len(),
{
    if a.len() == 0 {
        true
    } else if b.len() == 0 {
        false
    } else if a[0] != b[0] {
        (a[0] as u32) < (b[0] as u32)
    } else {
        text_le(a.drop_first(), b.drop_first())
    }
}

/// No text of `texts` comes later than one after it.
pub open spec fn ordered(texts: Seq<Seq<char>>) -> bool {
    forall|i: int, j: int|
        0 <= i <= j < texts.len() ==> text_le(#[trigger] texts[i], #[trigger] texts[j])
}

/// Each text of `texts` comes before every one after it, and is another.
pub open spec fn strictly_ordered(texts: Seq<Seq<char>>) -> bool {
    forall|i: int, j: int|
        0 <= i < j < texts.len() ==> text_le(#[trigger] texts[i], #[trigger] texts[j])
            && texts[i] != texts[j]
}

/// Two texts that come no later than each other are the same.
pub proof fn lemma_text_le_antisymmetric(a: Seq<char>, b: Seq<char>)
    requires
        text_le(a, b),
        text_le(b, a),
    ensures
        a == b,
    decreases a.len(),
{
    if a.len() == 0 || b.len() == 0 {
        assert(a =~= b);
    } else {
        lemma_text_le_antisymmetric(a.drop_first(), b.drop_first());
        assert(a =~= seq![a[0]] + a.drop_first());
        assert(b =~= seq![b[0]] + b.drop_first());
    }
}

/// Sorts the strings with `sort` of slices, which puts them in ascending
/// order, and strings are ordered by their bytes, that is by their
/// characters from the first on. The contract claims that the strings are
/// the same ones, each as often as before, and that they stand in order.
#[verifier::external_body]
fn sort_strings(texts: &mut Vec<String>)
    ensures
        text_views(final(texts)@).to_multiset() == text_views(old(texts)@).to_multiset(),
        ordered(text_views(final(texts)@)),
{
    texts.sort();
}

/// Drives the markdown generation: the options it was made with and the
/// exclusion patterns, which grow as ignore files are loaded.
pub struct MarkdownGenerator {
    options: MarkdownGeneratorOptions,
    file_exclusions: Vec<String>,
    initialized: bool,
}

impl MarkdownGenerator {
    /// The options the generator was made with.
    pub closed spec fn options(&self) -> MarkdownGeneratorOptions {
        self.options
    }

    /// The exclusion patterns in force.
    pub closed spec fn exclusions(&self) -> Seq<String> {
        self.file_exclusions@
    }

    /// Whether the ignore files have been loaded.
    pub closed spec fn initialized(&self) -> bool {
        self.initialized
    }

    /// A generator with the exclusion patterns of its options, before any
    /// ignore file is loaded.
    pub fn new(options: MarkdownGeneratorOptions) -> (generator: Self)
        ensures
            generator.options() == options,
            text_views(generator.exclusions()) == text_views(options.file_exclusions@),
            !generator.initialized(),
    {
        let file_exclusions = copy_texts(&options.file_exclusions, 0, options.file_exclusions.len());
        assert(text_views(options.file_exclusions@).subrange(
            0,
            options.file_exclusions@.len() as int,
        ) =~= text_views(options.file_exclusions@));
        MarkdownGenerator { file_exclusions, options, initialized: false }
    }

    /// Whether the ignore files have been loaded.
    pub fn is_initialized(&self) -> (done: bool)
        ensures
            done == self.initialized(),
    {
        self.initialized
    }

    /// The options the generator was made with.
    pub fn get_options(&self) -> (options: &MarkdownGeneratorOptions)
        ensures
            *options == self.options(),
    {
        &self.options
    }

    /// The exclusion patterns in force.
    pub fn file_exclusions(&self) -> (patterns: &Vec<String>)
        ensures
            patterns@ == self.exclusions(),
    {
        &self.file_exclusions
    }

    /// Whether a file extension is one that text recognition can read.
    pub fn is_ocr_file(ext: &str) -> (readable: bool)
        ensures
            readable == holds_text(ocr_file_types(), ext@),
    {
        let types = ocr_types();
        let wanted = chars_of(ext);
        let mut i: usize = 0;
        while i < types.len()
            invariant
                i <= types.len(),
                wanted@ == ext@,
                literal_views(types@) == ocr_file_types(),
                forall|k: int| 0 <= k < i ==> #[trigger] ocr_file_types()[k] != ext@,
            decreases types.len() - i,
        {
            assert(literal_views(types@)[i as int] == types@[i as int]@);
            if same_chars(&chars_of(types[i]), &wanted) {
                return true;
            }
            i += 1;
        }
        false
    }

    /// Takes in the patterns of one ignore file, given its content and the
    /// directory that holds it, as a path under the root.
    pub fn load_ignore_file(&mut self, ignore_dir: &str, content: &str)
        ensures
            final(self).options() == old(self).options(),
            final(self).initialized() == old(self).initialized(),
            text_views(final(self).exclusions()) == text_views(old(self).exclusions())
                + ignore_patterns(ignore_dir@, lines(content@)),
    {
        let mut patterns = ignore_file_patterns(ignore_dir, content);
        let ghost before = text_views(self.file_exclusions@);
        let ghost added = text_views(patterns@);
        self.file_exclusions.append(&mut patterns);
        assert(text_views(self.file_exclusions@) =~= before + added);
    }

    /// Whether a file path matches any exclusion pattern in force.
    pub fn matches_exclusion_patterns(&self, file: &str) -> (matched: bool)
        ensures
            matched == any_glob_matches(self.exclusions(), file@),
    {
        matches_any_pattern(&self.file_exclusions, file)
    }

    /// The files to process among those that a listing of the tracked
    /// files names: its lines that are not blank, without the files that
    /// the options exclude by type or that a pattern in force excludes.
    pub fn get_tracked_files(&self, listing: &str) -> (files: Vec<String>)
        ensures
            text_views(files@) == kept_files(
                nonblank(lines(listing@)),
                self.options().file_type_exclusions@,
                self.exclusions(),
            ),
    {
        let named = listed_files(listing);
        filter_files(named, &self.options.file_type_exclusions, &self.file_exclusions)
    }

    /// Ends the loading of ignore files: the patterns in force are put in
    /// order and each is kept once.
    pub fn finish_loading(&mut self)
        ensures
            final(self).options() == old(self).options(),
            final(self).initialized(),
            forall|x: Seq<char>|
                holds_text(text_views(final(self).exclusions()), x) <==> holds_text(
                    text_views(old(self).exclusions()),
                    x,
                ),
            strictly_ordered(text_views(final(self).exclusions())),
    {
        let ghost before = text_views(self.file_exclusions@);
        sort_strings(&mut self.file_exclusions);
        let ghost sorted = text_views(self.file_exclusions@);
        proof {
            assert forall|x: Seq<char>| holds_text(sorted, x) <==> holds_text(before, x) by {
                vstd::seq_lib::to_multiset_contains(sorted, x);
                vstd::seq_lib::to_multiset_contains(before, x);
                if sorted.contains(x) {
                    let i = choose|i: int| 0 <= i < sorted.len() && sorted[i] == x;
                    assert(holds_text(sorted, x));
                }
                if holds_text(sorted, x) {
                    let i = choose|i: int| 0 <= i < sorted.len() && sorted[i] == x;
                    assert(sorted.contains(x));
                }
                if before.contains(x) {
                    let i = choose|i: int| 0 <= i < before.len() && before[i] == x;
                    assert(holds_text(before, x));
                }
                if holds_text(before, x) {
                    let i = choose|i: int| 0 <= i < before.len() && before[i] == x;
                    assert(before.contains(x));
                }
            }
        }
        let mut kept: Vec<String> = Vec::new();
        let mut i: usize = 0;
        let ghost mut places: Seq<int> = Seq::empty();
        while i < self.file_exclusions.len()
            invariant
                i <= self.file_exclusions.len(),
                self.options() == old(self).options(),
                sorted == text_views(self.file_exclusions@),
                ordered(sorted),
                places.len() == kept@.len(),
                forall|k: int| 0 <= k < places.len() ==> 0 <= #[trigger] places[k] < i,
                forall|k: int|
                    0 <= k < places.len() ==> (#[trigger] kept@[k])@ == sorted[places[k]],
                forall|a: int, b: int|
                    0 <= a < b < places.len() ==> #[trigger] places[a] < #[trigger] places[b],
                forall|k: int|
                    0 <= k < places.len() - 1 ==> #[trigger] sorted[places[k]] != sorted[places[k
                        + 1]],
                forall|k: int|
                    0 <= k < i ==> holds_text(text_views(kept@), #[trigger] sorted[k]),
                i > 0 ==> kept@.len() > 0 && kept@.last()@ == sorted[i - 1],
            decreases self.file_exclusions.len() - i,
        {
            let ghost had = text_views(kept@);
            let n = kept.len();
            assert(sorted[i as int] == self.file_exclusions@[i as int]@);
            if n == 0 || kept[n - 1] != self.file_exclusions[i] {
                let pattern = self.file_exclusions[i].clone();
                proof {
                    lemma_text_views_push(kept@, pattern);
                    places = places.push(i as int);
                }
                kept.push(pattern);
                proof {
                    let now = text_views(kept@);
                    assert(now[n as int] == sorted[i as int]);
                    assert forall|k: int| 0 <= k <= i implies holds_text(
                        now,
                        #[trigger] sorted[k],
                    ) by {
                        if k < i {
                            let w = choose|w: int| 0 <= w < had.len() && had[w] == sorted[k];
                            assert(now[w] == sorted[k]);
                        }
                    }
                }
            } else {
                proof {
                    assert(had[n - 1] == sorted[i as int]);
                }
            }
            i += 1;
        }
        proof {
            let out = text_views(kept@);
            assert forall|x: Seq<char>| holds_text(out, x) <==> holds_text(sorted, x) by {
                if holds_text(out, x) {
                    let w = choose|w: int| 0 <= w < out.len() && out[w] == x;
                    assert(sorted[places[w]] == x);
                }
                if holds_text(sorted, x) {
                    let k = choose|k: int| 0 <= k < sorted.len() && sorted[k] == x;
                    assert(holds_text(out, sorted[k]));
                }
            }
            assert forall|a: int, b: int| 0 <= a < b < out.len() implies text_le(
                #[trigger] out[a],
                #[trigger] out[b],
            ) && out[a] != out[b] by {
                assert(out[a] == sorted[places[a]] && out[b] == sorted[places[b]]);
                assert(out[b - 1] == sorted[places[b - 1]]);
                assert(places[a] <= places[b - 1]) by {
                    if a < b - 1 {
                        assert(places[a] < places[b - 1]);
                    }
                }
                assert(places[b - 1] < places[b]);
                if out[a] == out[b] {
                    lemma_text_le_antisymmetric(out[b - 1], out[b]);
                }
            }
        }
        self.file_exclusions = kept;
        self.initialized = true;
    }

    /// Processes the content of a file for the document.
    pub fn read_file_content(raw: &str) -> (content: String)
        ensures
            content@ == file_content_model(raw@),
    {
        let cleaned = clean_and_redact(raw);
        let kept = trim_end_chars(&chars_of(cleaned.as_str()));
        string_of(&kept)
    }

    /// Generates the markdown for the files, each with its processed content,
    /// or with none where it could not be read.
    pub fn generate_markdown(files: &Vec<(String, Option<String>)>) -> (markdown: String)
        ensures
            markdown@ == markdown_model(files@),
    {
        let mut out = chars_of("# Project Files\n\n");
        let mut i: usize = 0;
        assert(files@.take(0) =~= Seq::<(String, Option<String>)>::empty());
        while i < files.len()
            invariant
                i <= files.len(),
                out@ == markdown_model(files@.take(i as int)),
            decreases files.len() - i,
        {
            proof {
                assert(files@.take(i + 1).drop_last() =~= files@.take(i as int));
                assert(files@.take(i + 1).last() == files@[i as int]);
            }
            match &files[i].1 {
                Some(content) => {
                    let chars = chars_of(content.as_str());
                    if !all_whitespace(&chars) {
                        let ghost before = out@;
                        push_str_chars(&mut out, "## ");
                        push_str_chars(&mut out, files[i].0.as_str());
                        push_str_chars(&mut out, "\n~~~\n");
                        extend_chars(&mut out, &trim_chars(&chars));
                        push_str_chars(&mut out, "\n~~~\n\n");
                        assert(out@ =~= before + file_section(files@[i as int].0@, content@));
                    }
                },
                None => {},
            }
            i += 1;
        }
        assert(files@.take(files.len() as int) =~= files@);
        string_of(&out)
    }

    /// The content of the root ignore file, given the content it has if it
    /// exists, and whether it has to be written.
    pub fn get_root_ignore(existing: Option<&str>) -> (result: (String, bool))
        ensures
            result.0@ == root_ignore_model(
                match existing {
                    Some(content) => Some(content@),
                    None => None,
                },
            ).0,
            result.1 == root_ignore_model(
                match existing {
                    Some(content) => Some(content@),
                    None => None,
                },
            ).1,
    {
        match existing {
            None => ("todo\nprompt.md\nembeddings.json".to_owned(), true),
            Some(content) => {
                if has_entry(content, "prompt.md") {
                    (content.to_owned(), false)
                } else {
                    let mut new_content = chars_of(content);
                    end_line(&mut new_content);
                    push_str_chars(&mut new_content, "prompt.md\n");
                    (string_of(&new_content), true)
                }
            },
        }
    }

    /// The new content for `.gitignore`, given the content it has (empty where
    /// there is no such file): `None` where nothing has to be written.
    pub fn update_gitignore(content: &str) -> (updated: Option<String>)
        ensures
            text_of(updated) == gitignore_model(content@),
    {
        let needs_prompt_md = !has_entry(content, "prompt.md");
        let needs_todo = !has_entry(content, "todo");
        let needs_embeddings_json = !has_entry(content, "embeddings.json");
        if needs_prompt_md || needs_todo || needs_embeddings_json {
            let mut new_content = chars_of(content);
            end_line(&mut new_content);
            add_entry(&mut new_content, "prompt.md", needs_prompt_md);
            add_entry(&mut new_content, "todo", needs_todo);
            add_entry(&mut new_content, "embeddings.json", needs_embeddings_json);
            Some(string_of(&new_content))
        } else {
            None
        }
    }

    /// Creates the complete markdown document, which joins the code with the
    /// todo notes, and the result to report for it.
    pub fn create_markdown_document(code_markdown: &str, todos: &str) -> (made: (String, MarkdownResult))
        ensures
            made.0@ == document_model(code_markdown@, todos@),
            made.1.success,
            made.1.token_count == Some(token_count(made.0@) as usize),
            token_count(made.0@) <= usize::MAX,
            made.1.error is None,
    {
        let mut out = chars_of(code_markdown);
        push_str_chars(&mut out, "\n---\n\n");
        push_str_chars(&mut out, todos);
        push_str_chars(&mut out, "\n");
        let markdown = string_of(&out);
        let token_count = count_tokens(markdown.as_str());
        (markdown, MarkdownResult { success: true, token_count: Some(token_count), error: None })
    }

    /// Simple glob pattern matching.
    pub fn glob_match(&self, pattern: &str, path: &str) -> (matched: bool)
        ensures
            matched == glob_matches(pattern@, path@),
    {
        glob_match(pattern, path)
    }
}

} // verus!
