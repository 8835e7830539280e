//! Where files lie, how they are written, and where the Codex binary is
//! looked for.

use crate::auth::AppResult;
use crate::clock::{is_random_uuid, random_uuid, uuid_notation, uuid_text};
use crate::text::{glue, texts};
use vstd::prelude::*;

verus! {

/// A place below the home directory: the names on the way to it.
#[derive(Debug, PartialEq, Eq)]
pub struct Place {
    pub parts: Vec<String>,
}

impl View for Place {
    type V = Seq<Seq<char>>;

    open spec fn view(&self) -> Seq<Seq<char>> {
        texts(self.parts@)
    }
}

impl Place {
    /// The home directory itself.
    pub fn home() -> (place: Place)
        ensures
            place@ == Seq::<Seq<char>>::empty(),
    {
        let place = Place { parts: Vec::new() };
        assert(place@ == Seq::<Seq<char>>::empty());
        place
    }

    /// The place with the given name in this one.
    pub fn join(&self, name: &str) -> (place: Place)
        ensures
            place@ == self@.push(name@),
    {
        let mut parts: Vec<String> = Vec::new();
        let mut i: usize = 0;
        while i < self.parts.len()
            invariant
                i <= self.parts@.len(),
                texts(parts@) == self@.take(i as int),
            decreases self.parts@.len() - i,
        {
            let ghost before = parts@;
            parts.push(self.parts[i].clone());
            assert(texts(parts@) == texts(before).push(self@[i as int]));
            assert(self@.take(i + 1) == self@.take(i as int).push(self@[i as int]));
            i = i + 1;
        }
        assert(self@.take(i as int) == self@);
        let ghost before = parts@;
        parts.push(name.to_owned());
        assert(texts(parts@) == texts(before).push(name@));
        Place { parts }
    }
}

impl Clone for Place {
    fn clone(&self) -> (copy: Self)
        ensures
            copy@ == self@,
    {
        let mut parts: Vec<String> = Vec::new();
        let mut i: usize = 0;
        while i < self.parts.len()
            invariant
                i <= self.parts@.len(),
                texts(parts@) == self@.take(i as int),
            decreases self.parts@.len() - i,
        {
            let ghost before = parts@;
            parts.push(self.parts[i].clone());
            assert(texts(parts@) == texts(before).push(self@[i as int]));
            assert(self@.take(i + 1) == self@.take(i as int).push(self@[i as int]));
            i = i + 1;
        }
        assert(self@.take(i as int) == self@);
        Place { parts }
    }
}

/// The places that the application uses.
#[derive(Debug, PartialEq, Eq)]
pub struct Paths {
    pub codex_dir: Place,
    pub auth: Place,
    pub app_dir: Place,
    pub profiles: Place,
    pub backups: Place,
    pub probes: Place,
    pub index: Place,
}

impl Paths {
    /// The layout: Codex has a directory of its own below the home directory,
    /// with its authorisation in it, and the application one within that.
    pub open spec fn laid_out(self) -> bool {
        &&& self.codex_dir@ == seq![".codex"@]
        &&& self.auth@ == seq![".codex"@, "auth.json"@]
        &&& self.app_dir@ == seq![".codex"@, "account-switcher"@]
        &&& self.profiles@ == seq![".codex"@, "account-switcher"@, "profiles"@]
        &&& self.backups@ == seq![".codex"@, "account-switcher"@, "backups"@]
        &&& self.probes@ == seq![".codex"@, "account-switcher"@, "query-homes"@]
        &&& self.index@ == seq![".codex"@, "account-switcher"@, "profiles.json"@]
    }

    /// The places below the home directory, where one is known.
    pub fn discover(home_known: bool) -> (result: AppResult<Paths>)
        ensures
            match result {
                Ok(paths) => home_known && paths.laid_out(),
                Err(message) => !home_known && message@
                    == "Не удалось определить домашний каталог"@,
            },
    {
        if !home_known {
            return Err("Не удалось определить домашний каталог".to_owned());
        }
        let codex_dir = Place::home().join(".codex");
        let app_dir = codex_dir.join("account-switcher");
        let paths = Paths {
            auth: codex_dir.join("auth.json"),
            profiles: app_dir.join("profiles"),
            backups: app_dir.join("backups"),
            probes: app_dir.join("query-homes"),
            index: app_dir.join("profiles.json"),
            codex_dir,
            app_dir,
        };
        assert(paths.codex_dir@ =~= seq![".codex"@]);
        assert(paths.app_dir@ =~= seq![".codex"@, "account-switcher"@]);
        assert(paths.auth@ =~= seq![".codex"@, "auth.json"@]);
        assert(paths.profiles@ =~= seq![".codex"@, "account-switcher"@, "profiles"@]);
        assert(paths.backups@ =~= seq![".codex"@, "account-switcher"@, "backups"@]);
        assert(paths.probes@ =~= seq![".codex"@, "account-switcher"@, "query-homes"@]);
        assert(paths.index@ =~= seq![".codex"@, "account-switcher"@, "profiles.json"@]);
        Ok(paths)
    }

    /// The directories that are made and secured, in this order.
    pub fn ensure(&self) -> (directories: Vec<Place>)
        ensures
            directories@.len() == 5,
            directories@[0]@ == self.codex_dir@,
            directories@[1]@ == self.app_dir@,
            directories@[2]@ == self.profiles@,
            directories@[3]@ == self.backups@,
            directories@[4]@ == self.probes@,
            directories@.map_values(|place: Place| place@) == ensured(*self),
    {
        let mut directories: Vec<Place> = Vec::new();
        directories.push(self.codex_dir.clone());
        directories.push(self.app_dir.clone());
        directories.push(self.profiles.clone());
        directories.push(self.backups.clone());
        directories.push(self.probes.clone());
        assert(directories@.map_values(|place: Place| place@) =~= ensured(*self));
        directories
    }

    /// The home of Codex while it is asked about the profile with the given
    /// UUID.
    pub fn probe_home(&self, id: u128) -> (place: Place)
        ensures
            place@ == self.probes@.push(uuid_notation(id)),
    {
        self.probes.join(uuid_text(id).as_str())
    }
}

/// The directories come after those they lie in: each is the first or lies in
/// an earlier one.
pub proof fn law_directories_are_made_in_order(paths: Paths)
    requires
        paths.laid_out(),
    ensures
        paths.app_dir@.drop_last() == paths.codex_dir@,
        paths.profiles@.drop_last() == paths.app_dir@,
        paths.backups@.drop_last() == paths.app_dir@,
        paths.probes@.drop_last() == paths.app_dir@,
        paths.index@.drop_last() == paths.app_dir@,
        paths.auth@.drop_last() == paths.codex_dir@,
{
}

/// What the application keeps for itself never lies in the place of the
/// authorisation that Codex uses, and its own places all differ.
pub proof fn law_places_differ(paths: Paths)
    requires
        paths.laid_out(),
    ensures
        paths.profiles@ != paths.backups@,
        paths.profiles@ != paths.probes@,
        paths.profiles@ != paths.index@,
        paths.backups@ != paths.probes@,
        paths.backups@ != paths.index@,
        paths.probes@ != paths.index@,
        paths.app_dir@ != paths.auth@,
{
    reveal_strlit("profiles");
    reveal_strlit("backups");
    reveal_strlit("query-homes");
    reveal_strlit("profiles.json");
    reveal_strlit("auth.json");
    reveal_strlit("account-switcher");
    assert(paths.profiles@[2].len() == 8);
    assert(paths.backups@[2].len() == 7);
    assert(paths.probes@[2].len() == 11);
    assert(paths.index@[2].len() == 13);
    assert(paths.app_dir@[1].len() == 16);
    assert(paths.auth@[1].len() == 9);
}

/// The permissions of a directory, on systems that have such: only the owner
/// may enter it.
pub open spec fn owner_only(unix: bool) -> Option<u32> {
    if unix {
        Some(0o700u32)
    } else {
        None
    }
}

/// The permissions of a directory, on systems that have such: only the owner
/// may enter it.
pub fn secure_directory(unix: bool) -> (mode: Option<u32>)
    ensures
        mode == owner_only(unix),
{
    if unix {
        Some(0o700)
    } else {
        None
    }
}

/// The directories below the home directory, with the permissions that each
/// was given, where it was given any.
pub type Directories = Map<Seq<Seq<char>>, Option<u32>>;

/// What making and securing a directory does: it is there afterwards, with
/// every directory on the way to it, and it has the permissions, where there
/// are such. All others stay as they are.
pub open spec fn with_directory(
    directories: Directories,
    place: Seq<Seq<char>>,
    mode: Option<u32>,
) -> Directories {
    Map::new(
        |p: Seq<Seq<char>>| directories.contains_key(p) || p.is_prefix_of(place),
        |p: Seq<Seq<char>>|
            if p == place && mode is Some {
                mode
            } else if directories.contains_key(p) {
                directories[p]
            } else {
                None
            },
    )
}

/// What making and securing directories one after the other does.
pub open spec fn with_directories(
    directories: Directories,
    places: Seq<Seq<Seq<char>>>,
    mode: Option<u32>,
) -> Directories
    decreases places.len(),
{
    if places.len() == 0 {
        directories
    } else {
        with_directory(
            with_directories(directories, places.drop_last(), mode),
            places.last(),
            mode,
        )
    }
}

/// The places of the directories that `Paths::ensure` hands out.
pub open spec fn ensured(paths: Paths) -> Seq<Seq<Seq<char>>> {
    seq![paths.codex_dir@, paths.app_dir@, paths.profiles@, paths.backups@, paths.probes@]
}

/// Which directories there are once those of a layout were made, and with
/// which permissions.
proof fn lemma_ensured(paths: Paths, directories: Directories, mode: Option<u32>)
    requires
        paths.laid_out(),
    ensures
        ({
            let after = with_directories(directories, ensured(paths), mode);
            forall|p: Seq<Seq<char>>|
                {
                    &&& #[trigger] after.contains_key(p) <==> directories.contains_key(p)
                        || ensured(paths).contains(p) || p.len() == 0
                    &&& after.contains_key(p) ==> after[p] == if ensured(paths).contains(p) && mode
                        is Some {
                        mode
                    } else if directories.contains_key(p) {
                        directories[p]
                    } else {
                        None
                    }
                }
        }),
{
    let all = ensured(paths);
    let after = with_directories(directories, all, mode);
    reveal_with_fuel(with_directories, 6);
    assert(all.drop_last().drop_last().drop_last().drop_last().drop_last().len() == 0);
    let d1 = with_directory(directories, all[0], mode);
    let d2 = with_directory(d1, all[1], mode);
    let d3 = with_directory(d2, all[2], mode);
    let d4 = with_directory(d3, all[3], mode);
    let d5 = with_directory(d4, all[4], mode);
    assert(after == d5);
    assert forall|p: Seq<Seq<char>>|
        {
            &&& #[trigger] after.contains_key(p) <==> directories.contains_key(p) || all.contains(p)
                || p.len() == 0
            &&& after.contains_key(p) ==> after[p] == if all.contains(p) && mode is Some {
                mode
            } else if directories.contains_key(p) {
                directories[p]
            } else {
                None
            }
        } by {
        lemma_prefixes(paths, p);
        assert(all[0] == paths.codex_dir@ && all[1] == paths.app_dir@ && all[2] == paths.profiles@
            && all[3] == paths.backups@ && all[4] == paths.probes@);
        assert(all.contains(p) <==> p == all[0] || p == all[1] || p == all[2] || p == all[3] || p
            == all[4]);
    }
}

/// What lies on the way to a directory of a layout is the home directory or
/// another directory of it.
proof fn lemma_prefixes(paths: Paths, p: Seq<Seq<char>>)
    requires
        paths.laid_out(),
    ensures
        p.is_prefix_of(paths.codex_dir@) <==> p.len() == 0 || p == paths.codex_dir@,
        p.is_prefix_of(paths.app_dir@) <==> p.is_prefix_of(paths.codex_dir@) || p == paths.app_dir@,
        p.is_prefix_of(paths.profiles@) <==> p.is_prefix_of(paths.app_dir@) || p == paths.profiles@,
        p.is_prefix_of(paths.backups@) <==> p.is_prefix_of(paths.app_dir@) || p == paths.backups@,
        p.is_prefix_of(paths.probes@) <==> p.is_prefix_of(paths.app_dir@) || p == paths.probes@,
{
    law_directories_are_made_in_order(paths);
    lemma_prefix_step(paths.codex_dir@, p);
    lemma_prefix_step(paths.app_dir@, p);
    lemma_prefix_step(paths.profiles@, p);
    lemma_prefix_step(paths.backups@, p);
    lemma_prefix_step(paths.probes@, p);
    assert(paths.codex_dir@.drop_last().len() == 0);
}

proof fn lemma_prefix_step(place: Seq<Seq<char>>, p: Seq<Seq<char>>)
    requires
        place.len() > 0,
    ensures
        p.is_prefix_of(place) <==> p.is_prefix_of(place.drop_last()) || p == place,
{
    let before = place.drop_last();
    if p.is_prefix_of(place) && p.len() < place.len() {
        assert(p == before.subrange(0, p.len() as int));
    }
    if p.is_prefix_of(before) {
        assert(p == place.subrange(0, p.len() as int));
    }
    assert(place.subrange(0, place.len() as int) == place);
}

/// Once the directories of a layout were made and secured, each of them is
/// there, and only its owner may enter it, where there are such permissions.
/// No other place below the home directory has changed: neither the
/// authorisation nor the list of profiles becomes a directory.
pub proof fn law_directories_are_ensured(paths: Paths, directories: Directories, unix: bool)
    requires
        paths.laid_out(),
    ensures
        ({
            let mode = owner_only(unix);
            let after = with_directories(directories, ensured(paths), mode);
            &&& forall|i: int|
                0 <= i < 5 ==> after.contains_key(#[trigger] ensured(paths)[i]) && (unix
                    ==> after[ensured(paths)[i]] == mode)
            &&& forall|p: Seq<Seq<char>>|
                !ensured(paths).contains(p) && p.len() > 0 ==> (#[trigger] after.contains_key(p)
                    <==> directories.contains_key(p)) && (after.contains_key(p) ==> after[p]
                    == directories[p])
            &&& !ensured(paths).contains(paths.auth@)
            &&& !ensured(paths).contains(paths.index@)
        }),
{
    let mode = owner_only(unix);
    let after = with_directories(directories, ensured(paths), mode);
    lemma_ensured(paths, directories, mode);
    law_places_differ(paths);
    assert forall|i: int| 0 <= i < 5 implies after.contains_key(#[trigger] ensured(paths)[i]) && (
    unix ==> after[ensured(paths)[i]] == mode) by {
        let p = ensured(paths)[i];
        assert(ensured(paths).contains(p));
        assert(after.contains_key(p));
    }
    assert(paths.auth@.len() == 2 && paths.index@.len() == 3);
    assert(paths.codex_dir@.len() == 1 && paths.app_dir@.len() == 2);
    assert(paths.profiles@.len() == 3 && paths.backups@.len() == 3 && paths.probes@.len() == 3);
}

/// Making and securing the directories of a layout a second time changes
/// nothing.
pub proof fn law_ensuring_twice_changes_nothing(
    paths: Paths,
    directories: Directories,
    mode: Option<u32>,
)
    requires
        paths.laid_out(),
    ensures
        ({
            let once = with_directories(directories, ensured(paths), mode);
            with_directories(once, ensured(paths), mode) == once
        }),
{
    let once = with_directories(directories, ensured(paths), mode);
    let twice = with_directories(once, ensured(paths), mode);
    lemma_ensured(paths, directories, mode);
    lemma_ensured(paths, once, mode);
    assert forall|p: Seq<Seq<char>>| #[trigger] twice.contains_key(p) <==> once.contains_key(
        p,
    ) by {}
    assert forall|p: Seq<Seq<char>>| once.contains_key(p) implies #[trigger] twice[p]
        == once[p] by {
        assert(twice.contains_key(p));
    }
    assert(twice =~= once);
}

/// One step of writing a file.
#[derive(Clone, Copy, Debug, PartialEq, Eq)]
pub enum WriteStep {
    /// Make the directory that the file lies in.
    MakeParent,
    /// Write the bytes to a temporary file next to the file.
    WriteTemporary,
    /// Give the temporary file these permissions.
    Restrict(u32),
    /// Remove the file.
    RemoveOld,
    /// Move the temporary file into the place of the file.
    MoveIntoPlace,
}

/// The steps of writing a file.
pub open spec fn write_steps(
    has_parent: bool,
    unix: bool,
    windows: bool,
    exists: bool,
) -> Seq<WriteStep> {
    let a = if has_parent {
        seq![WriteStep::MakeParent]
    } else {
        Seq::empty()
    };
    let b = a.push(WriteStep::WriteTemporary);
    let c = if unix {
        b.push(WriteStep::Restrict(0o600))
    } else {
        b
    };
    let d = if windows && exists {
        c.push(WriteStep::RemoveOld)
    } else {
        c
    };
    d.push(WriteStep::MoveIntoPlace)
}

/// The steps of writing a file. `exists` says whether there is a file already.
pub fn secure_write(has_parent: bool, unix: bool, windows: bool, exists: bool) -> (steps: Vec<
    WriteStep,
>)
    ensures
        steps@ == write_steps(has_parent, unix, windows, exists),
{
    let mut steps: Vec<WriteStep> = Vec::new();
    if has_parent {
        steps.push(WriteStep::MakeParent);
    }
    steps.push(WriteStep::WriteTemporary);
    if unix {
        steps.push(WriteStep::Restrict(0o600));
    }
    if windows && exists {
        steps.push(WriteStep::RemoveOld);
    }
    steps.push(WriteStep::MoveIntoPlace);
    steps
}

/// The extension of a temporary file, made from a UUID.
pub fn temporary_extension_for(id: u128) -> (extension: String)
    ensures
        extension@ == "tmp-"@ + uuid_notation(id),
{
    glue("tmp-", uuid_text(id).as_str())
}

/// The extension of a temporary file, made from a UUID that is drawn.
pub fn temporary_extension() -> (extension: String)
    ensures
        exists|id: u128| #[trigger] is_random_uuid(id) && extension@ == "tmp-"@ + uuid_notation(id),
{
    let id = random_uuid();
    temporary_extension_for(id)
}

/// A file and the temporary file next to it: what each holds, where it is
/// there, and the permissions that it was given.
pub struct Disk {
    pub file: Option<Seq<u8>>,
    pub file_mode: Option<u32>,
    pub temporary: Option<Seq<u8>>,
    pub temporary_mode: Option<u32>,
}

impl Disk {
    /// What one step of writing `bytes` does.
    pub open spec fn after(self, step: WriteStep, bytes: Seq<u8>) -> Disk {
        match step {
            WriteStep::MakeParent => self,
            WriteStep::WriteTemporary => Disk {
                temporary: Some(bytes),
                temporary_mode: None,
                ..self
            },
            WriteStep::Restrict(mode) => Disk { temporary_mode: Some(mode), ..self },
            WriteStep::RemoveOld => Disk { file: None, file_mode: None, ..self },
            WriteStep::MoveIntoPlace => Disk {
                file: self.temporary,
                file_mode: self.temporary_mode,
                temporary: None,
                temporary_mode: None,
            },
        }
    }

    /// What the steps of writing `bytes` do, one after the other.
    pub open spec fn after_all(self, steps: Seq<WriteStep>, bytes: Seq<u8>) -> Disk
        decreases steps.len(),
    {
        if steps.len() == 0 {
            self
        } else {
            self.after_all(steps.drop_last(), bytes).after(steps.last(), bytes)
        }
    }
}

/// A file is written whole: in the end it holds the bytes, with the
/// permissions for its owner alone where there are such, and the temporary
/// file is gone.
pub proof fn law_written_whole(
    disk: Disk,
    bytes: Seq<u8>,
    has_parent: bool,
    unix: bool,
    windows: bool,
    exists: bool,
)
    ensures
        ({
            let end = disk.after_all(write_steps(has_parent, unix, windows, exists), bytes);
            &&& end.file == Some(bytes)
            &&& unix ==> end.file_mode == Some(0o600u32)
            &&& end.temporary is None
        }),
{
    let steps = write_steps(has_parent, unix, windows, exists);
    lemma_before_move(disk, bytes, has_parent, unix, windows, exists, steps.len() - 1);
    assert(steps.drop_last() == steps.take(steps.len() - 1));
}

/// What holds before the last step.
proof fn lemma_before_move(
    disk: Disk,
    bytes: Seq<u8>,
    has_parent: bool,
    unix: bool,
    windows: bool,
    exists: bool,
    k: int,
)
    requires
        0 <= k < write_steps(has_parent, unix, windows, exists).len(),
    ensures
        ({
            let steps = write_steps(has_parent, unix, windows, exists);
            let then = disk.after_all(steps.take(k), bytes);
            &&& then.file == disk.file && then.file_mode == disk.file_mode || (windows && exists
                && then.file is None)
            &&& k == steps.len() - 1 ==> then.temporary == Some(bytes) && (unix
                ==> then.temporary_mode == Some(0o600u32))
        }),
    decreases k,
{
    let steps = write_steps(has_parent, unix, windows, exists);
    reveal_with_fuel(Disk::after_all, 6);
    if k > 0 {
        lemma_before_move(disk, bytes, has_parent, unix, windows, exists, k - 1);
        assert(steps.take(k).drop_last() == steps.take(k - 1));
        assert(steps.take(k).last() == steps[k - 1]);
    }
    if k == steps.len() - 1 {
        assert forall|j: int| 0 < j <= k implies #[trigger] steps.take(j).drop_last() == steps.take(
            j - 1,
        ) by {}
        assert(steps.take(k).len() == k);
    }
}

/// A file is never seen half written. A write that stops before its last step
/// leaves the file as it was, with the permissions it had. The one exception
/// is a system where the old file is removed first: there it may be gone. The
/// last step brings the whole file.
pub proof fn law_never_half_written(
    disk: Disk,
    bytes: Seq<u8>,
    has_parent: bool,
    unix: bool,
    windows: bool,
    exists: bool,
    k: int,
)
    requires
        0 <= k <= write_steps(has_parent, unix, windows, exists).len(),
    ensures
        ({
            let steps = write_steps(has_parent, unix, windows, exists);
            let then = disk.after_all(steps.take(k), bytes);
            &&& k < steps.len() ==> (then.file == disk.file && then.file_mode == disk.file_mode)
                || (windows && exists && then.file is None)
            &&& k == steps.len() ==> then.file == Some(bytes)
        }),
{
    let steps = write_steps(has_parent, unix, windows, exists);
    if k < steps.len() {
        lemma_before_move(disk, bytes, has_parent, unix, windows, exists, k);
    } else {
        law_written_whole(disk, bytes, has_parent, unix, windows, exists);
        assert(steps.take(k) == steps);
    }
}

/// Where the Codex binary may be.
#[derive(Debug, PartialEq, Eq)]
pub enum BinaryPlace {
    /// A name in a directory of the search path, by the directory's number.
    OnPath { entry: usize, name: String },
    /// A path of its own.
    Fixed(String),
    /// A path below the home directory.
    UnderHome(String),
}

/// Whether `places` are where the Codex binary is looked for: first in the
/// directories of the search path, then where it is usually installed.
pub open spec fn are_binary_places(
    places: Seq<BinaryPlace>,
    windows: bool,
    path_entries: int,
    home_known: bool,
) -> bool {
    let name = if windows {
        "codex.cmd"@
    } else {
        "codex"@
    };
    &&& places.len() == path_entries + 2 + if home_known {
        2int
    } else {
        0
    }
    &&& forall|i: int|
        0 <= i < path_entries ==> (#[trigger] places[i] matches BinaryPlace::OnPath {
            entry,
            name: n,
        } && entry == i && n@ == name)
    &&& places[path_entries] matches BinaryPlace::Fixed(p) && p@ == "/opt/homebrew/bin/codex"@
    &&& places[path_entries + 1] matches BinaryPlace::Fixed(p) && p@ == "/usr/local/bin/codex"@
    &&& home_known ==> (places[path_entries + 2] matches BinaryPlace::UnderHome(p) && p@
        == ".local/bin/codex"@)
    &&& home_known ==> (places[path_entries + 3] matches BinaryPlace::UnderHome(p) && p@
        == "AppData/Roaming/npm/codex.cmd"@)
}

/// Where the Codex binary is looked for, in this order.
pub fn binary_places(windows: bool, path_entries: usize, home_known: bool) -> (places: Vec<
    BinaryPlace,
>)
    ensures
        are_binary_places(places@, windows, path_entries as int, home_known),
{
    let mut places: Vec<BinaryPlace> = Vec::new();
    let mut i: usize = 0;
    let ghost wanted = if windows {
        "codex.cmd"@
    } else {
        "codex"@
    };
    while i < path_entries
        invariant
            i <= path_entries,
            places@.len() == i,
            wanted == if windows {
                "codex.cmd"@
            } else {
                "codex"@
            },
            forall|j: int|
                0 <= j < i ==> (#[trigger] places@[j] matches BinaryPlace::OnPath {
                    entry,
                    name: n,
                } && entry == j && n@ == wanted),
        decreases path_entries - i,
    {
        let name = if windows {
            "codex.cmd".to_owned()
        } else {
            "codex".to_owned()
        };
        places.push(BinaryPlace::OnPath { entry: i, name });
        i = i + 1;
    }
    places.push(BinaryPlace::Fixed("/opt/homebrew/bin/codex".to_owned()));
    places.push(BinaryPlace::Fixed("/usr/local/bin/codex".to_owned()));
    if home_known {
        places.push(BinaryPlace::UnderHome(".local/bin/codex".to_owned()));
        places.push(BinaryPlace::UnderHome("AppData/Roaming/npm/codex.cmd".to_owned()));
    }
    places
}

/// The first place where there is a file. `present` says for each place
/// whether there is one.
pub fn find_codex_binary(present: &Vec<bool>) -> (result: AppResult<usize>)
    ensures
        match result {
            Ok(i) => i < present@.len() && present@[i as int] && forall|j: int|
                0 <= j < i ==> !#[trigger] present@[j],
            Err(message) => (forall|j: int| 0 <= j < present@.len() ==> !#[trigger] present@[j])
                && message@
                == "Codex CLI не найден. Установи его и перезапусти приложение."@,
        },
{
    let mut i: usize = 0;
    while i < present.len()
        invariant
            i <= present@.len(),
            forall|j: int| 0 <= j < i ==> !#[trigger] present@[j],
        decreases present@.len() - i,
    {
        if present[i] {
            return Ok(i);
        }
        i = i + 1;
    }
    Err("Codex CLI не найден. Установи его и перезапусти приложение.".to_owned())
}

/// Where everything lies.
pub proof fn law_layout(paths: Paths)
    requires
        paths.laid_out(),
    ensures
        paths.codex_dir@ == seq![".codex"@],
        paths.auth@ == paths.codex_dir@.push("auth.json"@),
        paths.app_dir@ == paths.codex_dir@.push("account-switcher"@),
        paths.profiles@ == paths.app_dir@.push("profiles"@),
        paths.backups@ == paths.app_dir@.push("backups"@),
        paths.probes@ == paths.app_dir@.push("query-homes"@),
        paths.index@ == paths.app_dir@.push("profiles.json"@),
        ensured(paths).len() == 5,
        ensured(paths)[0] == paths.codex_dir@,
        ensured(paths)[1] == paths.app_dir@,
        ensured(paths)[2] == paths.profiles@,
        ensured(paths)[3] == paths.backups@,
        ensured(paths)[4] == paths.probes@,
{
}

/// A file is written in the steps that are needed, and in no other: its
/// directory is made first, where it has one, the temporary file is restricted
/// where there are permissions, the old file is removed only on Windows, and
/// the last step alone puts the new one into place.
pub proof fn law_write_steps(has_parent: bool, unix: bool, windows: bool, exists: bool)
    ensures
        ({
            let steps = write_steps(has_parent, unix, windows, exists);
            let first = if has_parent {
                1int
            } else {
                0
            };
            &&& steps.len() == first + 2 + (if unix {
                1int
            } else {
                0
            }) + (if windows && exists {
                1int
            } else {
                0
            })
            &&& has_parent ==> steps[0] == WriteStep::MakeParent
            &&& steps[first] == WriteStep::WriteTemporary
            &&& unix ==> steps[first + 1] == WriteStep::Restrict(0o600)
            &&& windows && exists ==> steps[steps.len() - 2] == WriteStep::RemoveOld
            &&& steps.last() == WriteStep::MoveIntoPlace
        }),
{
}

/// What the steps of a write do to a file and the temporary file next to it.
pub proof fn law_write_step(disk: Disk, bytes: Seq<u8>, mode: u32)
    ensures
        disk.after(WriteStep::MakeParent, bytes) == disk,
        disk.after(WriteStep::WriteTemporary, bytes).temporary == Some(bytes),
        disk.after(WriteStep::WriteTemporary, bytes).file == disk.file,
        disk.after(WriteStep::Restrict(mode), bytes).temporary_mode == Some(mode),
        disk.after(WriteStep::Restrict(mode), bytes).temporary == disk.temporary,
        disk.after(WriteStep::Restrict(mode), bytes).file == disk.file,
        disk.after(WriteStep::RemoveOld, bytes).file is None,
        disk.after(WriteStep::RemoveOld, bytes).temporary == disk.temporary,
        disk.after(WriteStep::MoveIntoPlace, bytes).file == disk.temporary,
        disk.after(WriteStep::MoveIntoPlace, bytes).temporary is None,
{
}

/// Only the owner may enter a directory, where there are such permissions.
pub proof fn law_owner_only()
    ensures
        owner_only(true) == Some(0o700u32),
        owner_only(false) is None,
{
}

/// The binary is looked for in every directory of the search path, in its
/// order, and then where it is usually installed, below the home directory
/// only where that is known.
pub proof fn law_binary_places(
    places: Seq<BinaryPlace>,
    windows: bool,
    path_entries: int,
    home_known: bool,
    i: int,
)
    requires
        path_entries >= 0,
        are_binary_places(places, windows, path_entries, home_known),
    ensures
        0 <= i < path_entries ==> (places[i] matches BinaryPlace::OnPath { entry, name } && entry == i
            && name@ == if windows {
            "codex.cmd"@
        } else {
            "codex"@
        }),
        places.len() == path_entries + if home_known {
            4int
        } else {
            2
        },
        places[path_entries] matches BinaryPlace::Fixed(p) && p@ == "/opt/homebrew/bin/codex"@,
        places[path_entries + 1] matches BinaryPlace::Fixed(p) && p@ == "/usr/local/bin/codex"@,
        home_known ==> (places[path_entries + 2] matches BinaryPlace::UnderHome(p) && p@
            == ".local/bin/codex"@),
        home_known ==> (places[path_entries + 3] matches BinaryPlace::UnderHome(p) && p@
            == "AppData/Roaming/npm/codex.cmd"@),
{
    if 0 <= i < path_entries {
        assert(places[i] is OnPath);
    }
}

/// A place is the names on the way to it, in their order.
pub proof fn law_place_is_its_names(place: Place)
    ensures
        place@.len() == place.parts@.len(),
        forall|i: int| 0 <= i < place.parts@.len() ==> #[trigger] place@[i] == place.parts@[i]@,
{
}

} // verus!
