//! The command line's shape, mirroring `nb`'s surface: what each command
//! takes. Parsing arguments into these values is the binary's part; the
//! library decides what the values mean.

use vstd::prelude::*;

verus! {

#[derive(Debug, Clone, Default)]
pub struct Cli {
    /// Knowledge base root (defaults to $KB_ROOT, then ~/.kb)
    pub root: Option<String>,

    /// Item to show. Without one, lists the current notebook.
    pub selector: Option<String>,

    /// `kb <id>` is shorthand for `kb show <id>`, so it takes the same options.
    pub show: ShowOpts,

    pub command: Option<Command>,
}

#[derive(Debug, Clone)]
pub enum Command {
    /// Create a new note or folder
    Add(AddArgs),

    /// List items
    List(ListArgs),

    /// Search note contents
    Search(SearchArgs),

    /// Show an item
    Show(ShowArgs),

    /// View an item in the terminal
    Peek(ShowArgs),

    /// Open an item in the system's preferred application
    Open(ShowArgs),

    /// Edit an item
    Edit(EditArgs),

    /// Delete one or more items
    Delete(DeleteArgs),

    /// Move or rename an item
    Move(MoveArgs),

    /// Copy or duplicate an item
    Copy(CopyArgs),

    /// Print the number of items
    Count(SelectorArgs),

    /// Manage notebooks
    Notebooks(NotebooksArgs),

    /// Switch to a notebook
    Use(UseArgs),

    /// Print git and remote status for a notebook
    Status(NotebookArgs),

    /// Run a git command in a notebook
    Git(GitArgs),

    /// Show revision history
    History(SelectorArgs),

    /// Add, delete, and list folders
    Folders(FoldersArgs),

    /// Commit changes, then pull and push
    Sync(SyncArgs),

    /// Initialize a knowledge base
    Init(InitArgs),

    /// Rebuild `.index` from what is on disk
    Reconcile(NotebookArgs),

    /// Pick an item with fzf
    Pick(PickArgs),

    /// Show tags and how many notes carry them
    Tags(FilterArgs),

    /// Add missing frontmatter to existing notes
    Migrate(MigrateArgs),

    /// Bookmark a URL, or list bookmarks
    Bookmark(BookmarkArgs),

    /// Manage todos
    Todo(TodoArgs),

    /// Mark a todo done
    Do(SelectorArgs),

    /// Mark a todo not done
    Undo(SelectorArgs),

    /// Pin an item to the top of listings
    Pin(SelectorArgs),

    /// Remove an item's pin
    Unpin(SelectorArgs),

    /// Browse notes in a web browser
    Browse(BrowseArgs),

    /// Archive a notebook
    Archive(NotebookArgs),

    /// Remove a notebook's archived mark
    Unarchive(NotebookArgs),

    /// Show and change settings
    Settings(SettingsArgs),

    /// Print or change one setting
    SetValue(SetArgs),

    /// Return a setting to its default
    Unset(SettingNameArgs),

    /// Print where the knowledge base is, or check for the tools kb uses
    Env(EnvArgs),

    /// Print, install, or remove shell completions
    Completions(CompletionsArgs),
}

#[derive(Debug, Clone, Default)]
pub struct CompletionsArgs {
    pub command: Option<CompletionsCommand>,
    /// The shell to print completions for; the login shell when not given
    pub shell: Option<String>,
}

#[derive(Debug, Clone)]
pub enum CompletionsCommand {
    /// Write completions where the shell looks for them
    Install(CompletionTarget),
    /// Remove installed completions
    Uninstall(CompletionTarget),
    /// Report whether completions are installed
    Check(CompletionTarget),
}

#[derive(Debug, Clone, Default)]
pub struct CompletionTarget {
    /// The shell; the login shell when not given
    pub shell: Option<String>,
    /// The directory to use instead of the shell's usual one
    pub dir: Option<String>,
}

#[derive(Debug, Clone, Default)]
pub struct EnvArgs {
    pub command: Option<EnvCommand>,
}

#[derive(Debug, Clone)]
pub enum EnvCommand {
    /// Report which external tools are installed
    Check,
}

#[derive(Debug, Clone, Default)]
pub struct SettingsArgs {
    pub command: Option<SettingsCommand>,
}

#[derive(Debug, Clone)]
pub enum SettingsCommand {
    /// List every setting with its value
    List,
    /// Print one setting's value
    Get(SettingNameArgs),
    /// Print or change one setting
    SetValue(SetArgs),
    /// Return a setting to its default
    Unset(SettingNameArgs),
}

#[derive(Debug, Clone, Default)]
pub struct SettingNameArgs {
    /// The setting, by name or number
    pub name: String,
}

#[derive(Debug, Clone, Default)]
pub struct SetArgs {
    /// The setting, by name or number
    pub name: String,
    /// The new value; without one the current value is printed
    pub value: Option<String>,
}

#[derive(Debug, Clone, Default)]
pub struct BrowseArgs {
    /// Item, folder, or notebook to open
    pub selector: Option<String>,

    /// Start the web server and keep it running
    pub serve: bool,

    /// Open in the system's web browser
    pub gui: bool,

    /// Print the rendered HTML to standard output
    pub print: bool,

    /// Browse notebooks
    pub notebooks: bool,

    /// Open to the search results for this query
    pub query: Option<String>,

    /// Search for a tag
    pub tag: Option<String>,

    /// Port to listen on
    pub port: u16,
}

#[derive(Debug, Clone, Default)]
pub struct TodoArgs {
    pub command: Option<TodoCommand>,

    pub filters: FilterArgs,

    /// Show done todos as well
    pub all: bool,
}

#[derive(Debug, Clone)]
pub enum TodoCommand {
    /// Add a todo
    Add(TodoAddArgs),
    /// List open todos
    List(TodoListArgs),
    /// Mark a todo done
    Do(SelectorArgs),
    /// Mark a todo not done
    Undo(SelectorArgs),
    /// List done todos
    Done(FilterArgs),
    /// List open todos
    Open(FilterArgs),
}

#[derive(Debug, Clone, Default)]
pub struct TodoAddArgs {
    /// The task
    pub task: Vec<String>,

    /// A comma-separated list of tags
    pub tags: Vec<String>,

    /// Add within the folder at this path
    pub folder: Option<String>,
}

#[derive(Debug, Clone, Default)]
pub struct TodoListArgs {
    pub filters: FilterArgs,

    /// Show done todos as well
    pub all: bool,
}

#[derive(Debug, Clone, Default)]
pub struct BookmarkArgs {
    pub command: Option<BookmarkCommand>,

    /// URLs to bookmark
    pub urls: Vec<String>,

    pub opts: BookmarkOpts,
}

#[derive(Debug, Clone, Default)]
pub struct BookmarkOpts {
    /// A comment or description for this bookmark
    pub comment: Option<String>,

    /// A quote or excerpt from the saved page
    pub quote: Option<String>,

    /// A comma-separated list of tags
    pub tags: Vec<String>,

    /// A URL or selector related to this page; repeat for several
    pub related: Vec<String>,

    /// The filename for the bookmark
    pub filename: Option<String>,

    /// The bookmark title (default: the page's own <title>)
    pub title: Option<String>,

    /// Add within the folder at this path
    pub folder: Option<String>,

    /// Don't request or download the target page
    pub no_request: bool,

    /// Save the page source as HTML
    pub save_source: bool,
}

#[derive(Debug, Clone)]
pub enum BookmarkCommand {
    /// List bookmarks
    List(FilterArgs),
    /// Print a bookmark's URL
    Url(SelectorArgs),
    /// Open a bookmark's URL in the browser
    Open(SelectorArgs),
    /// View a bookmark in the terminal
    Peek(SelectorArgs),
    /// Edit a bookmark
    Edit(EditArgs),
    /// Delete a bookmark
    Delete(DeleteArgs),
    /// Search bookmarks
    Search(SearchArgs),
}

/// Filters shared by the commands that select sets of notes.
#[derive(Debug, Clone, Default)]
pub struct FilterArgs {
    /// Limit to one notebook
    pub notebook: Option<String>,

    /// Require a tag; repeat to require several
    pub tag: Vec<String>,

    /// Only items touched since a date or duration (`7d`, `3w`, `2026-01-01`)
    pub since: Option<String>,

    /// Maximum results
    // No short flag: `-l` belongs to `--files-with-matches`, as in grep.
    pub limit: Option<usize>,
}

#[derive(Debug, Clone, Default)]
pub struct AddArgs {
    /// Filename when it has an extension, otherwise the note's content
    pub target: Option<String>,

    /// Additional content, when the first argument was a filename
    pub content_arg: Option<String>,

    /// The content for the new note; `-` reads standard input
    pub content: Option<String>,

    /// The filename for the new note
    pub filename: Option<String>,

    /// Add within the folder at this path
    pub folder: Option<String>,

    /// A comma-separated list of tags
    pub tags: Vec<String>,

    /// The title for the new note
    pub title: Option<String>,

    /// The file extension for the new note
    pub kind: Option<String>,

    /// Open the note in the editor even when content was supplied
    pub edit: bool,

    /// Print the path instead of opening an editor
    pub no_edit: bool,
}

#[derive(Debug, Clone, Default)]
pub struct ListArgs {
    /// Notebook, folder, or item to list
    pub selector: Option<String>,

    pub filters: FilterArgs,

    /// Print only paths
    pub paths_only: bool,

    /// Print results as JSON
    pub json: bool,
}

#[derive(Debug, Clone, Default)]
pub struct SearchArgs {
    /// Regular expression to search for
    pub pattern: String,

    pub filters: FilterArgs,

    /// Match the pattern literally instead of as a regular expression
    pub fixed_string: bool,

    /// Match case-sensitively (default: smart case)
    pub case_sensitive: bool,

    /// Match case-insensitively
    pub ignore_case: bool,

    /// Matching lines to show per note
    pub max_matches: usize,

    /// Print only the paths of matching notes
    pub files_with_matches: bool,

    /// Print results as JSON
    pub json: bool,
}

#[derive(Debug, Clone, Default)]
pub struct ShowArgs {
    /// Item to show
    pub selector: Option<String>,

    pub opts: ShowOpts,
}

/// The output-selecting options of `show`, shared with the bare `kb <id>` form.
#[derive(Debug, Clone, Default)]
pub struct ShowOpts {
    /// Print to standard output instead of paging
    pub print: bool,

    /// Print the full path of the item
    pub path: bool,

    /// Print the item's path relative to its notebook
    pub relative_path: bool,

    /// Print the filename of the item
    pub filename: bool,

    /// Print the id number of the item
    pub id: bool,

    /// Print the title of the item
    pub title: bool,

    /// Print the id, filename, and title
    pub info_line: bool,

    /// Print when the item was added
    pub added: bool,

    /// Print when the item last changed
    pub updated: bool,

    /// Print the file extension of the item
    pub kind: bool,
}

#[derive(Debug, Clone, Default)]
pub struct EditArgs {
    /// Item to edit
    pub selector: Option<String>,

    /// Content to add to the item; `-` reads standard input
    pub content: Option<String>,

    /// Edit with this editor, overriding $EDITOR
    pub editor: Option<String>,

    /// Edit the last modified item
    pub last: bool,

    /// Overwrite existing content instead of appending
    pub overwrite: bool,

    /// Insert content before the existing content
    pub prepend: bool,
}

#[derive(Debug, Clone, Default)]
pub struct DeleteArgs {
    /// Items to delete
    pub selectors: Vec<String>,

    /// Skip the confirmation prompt
    pub force: bool,
}

#[derive(Debug, Clone, Default)]
pub struct MoveArgs {
    /// Item to move
    pub selector: String,

    /// Destination notebook, folder, or filename
    pub destination: Option<String>,

    /// Rename the item after its title
    pub to_title: bool,

    /// Rename the item to the last modified timestamp
    pub reset: bool,

    /// Skip the confirmation prompt
    pub force: bool,
}

#[derive(Debug, Clone, Default)]
pub struct CopyArgs {
    /// Item to copy
    pub selector: String,

    /// Destination notebook, folder, or filename
    pub destination: Option<String>,
}

#[derive(Debug, Clone, Default)]
pub struct SelectorArgs {
    /// Notebook, folder, or item
    pub selector: Option<String>,
}

#[derive(Debug, Clone, Default)]
pub struct NotebookArgs {
    /// Notebook name
    pub notebook: Option<String>,
}

#[derive(Debug, Clone, Default)]
pub struct UseArgs {
    /// Notebook to switch to
    pub notebook: String,
}

#[derive(Debug, Clone, Default)]
pub struct GitArgs {
    /// Notebook to run in
    pub notebook: Option<String>,

    /// Arguments passed through to git
    pub args: Vec<String>,
}

#[derive(Debug, Clone, Default)]
pub struct NotebooksArgs {
    pub command: Option<NotebooksCommand>,

    /// Print only notebook names
    pub names: bool,

    /// Print only notebook paths
    pub paths: bool,
}

#[derive(Debug, Clone)]
pub enum NotebooksCommand {
    /// Print the current notebook
    Current(CurrentArgs),
    /// Add a notebook
    Add(NotebookNameArgs),
    /// Delete a notebook
    Delete(DeleteNotebookArgs),
    /// Rename a notebook
    Rename(RenameNotebookArgs),
    /// Print the notebook a selector lands in
    Select(SelectNotebookArgs),
}

#[derive(Debug, Clone, Default)]
pub struct SelectNotebookArgs {
    /// A selector such as `home:knowledge/3`
    pub selector: String,
}

#[derive(Debug, Clone, Default)]
pub struct CurrentArgs {
    /// Print the notebook's path
    pub path: bool,
}

#[derive(Debug, Clone, Default)]
pub struct NotebookNameArgs {
    /// Name of the notebook
    pub name: String,
}

#[derive(Debug, Clone, Default)]
pub struct DeleteNotebookArgs {
    /// Name of the notebook
    pub name: String,

    /// Skip the confirmation prompt
    pub force: bool,
}

#[derive(Debug, Clone, Default)]
pub struct RenameNotebookArgs {
    /// Current name
    pub old: String,
    /// New name
    pub new: String,
}

#[derive(Debug, Clone, Default)]
pub struct FoldersArgs {
    pub command: Option<FoldersCommand>,

    /// Notebook or folder to list
    pub selector: Option<String>,
}

#[derive(Debug, Clone)]
pub enum FoldersCommand {
    /// Add a folder
    Add(FolderPathArgs),
    /// Delete a folder
    Delete(FolderPathArgs),
}

#[derive(Debug, Clone, Default)]
pub struct FolderPathArgs {
    /// Folder path, optionally scoped to a notebook
    pub selector: String,

    /// Skip the confirmation prompt
    pub force: bool,
}

#[derive(Debug, Clone, Default)]
pub struct SyncArgs {
    /// Limit to one notebook
    pub notebook: Option<String>,

    /// Commit message (default: generated from the staged files)
    pub message: Option<String>,

    /// Stage every change, not just Markdown
    pub all: bool,
}

#[derive(Debug, Clone, Default)]
pub struct InitArgs {
    /// Clone this remote as the initial notebook
    pub remote: Option<String>,

    /// Branch to clone
    pub branch: Option<String>,
}

#[derive(Debug, Clone, Default)]
pub struct PickArgs {
    pub filters: FilterArgs,

    /// Initial fzf query
    pub query: Option<String>,

    /// Open the selection in $EDITOR instead of the pager
    pub edit: bool,
}

#[derive(Debug, Clone, Default)]
pub struct MigrateArgs {
    /// Limit to one notebook
    pub notebook: Option<String>,

    /// Write the changes; without this the run only reports what it would do
    pub apply: bool,

    /// Show the value of every key being added
    pub verbose: bool,

    /// Migrate even when a notebook has uncommitted changes
    pub allow_dirty: bool,
}

} // verus!
