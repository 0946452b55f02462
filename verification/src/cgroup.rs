//! Control groups as places in the cgroup file system, the user slices among
//! them, and the device memory that is to be protected.

use crate::text;
use vstd::prelude::*;
use vstd::slice::slice_subrange;

verus! {

/// Where the cgroup file system is mounted.
pub const CGROUP_ROOT: &'static str = "/sys/fs/cgroup";

// ---------------------------------------------------------------------------
// Paths
// ---------------------------------------------------------------------------

/// A control group: the names on the way from the root of the file system to
/// its directory.
#[derive(Debug)]
pub struct CGroup {
    pub names: Vec<String>,
}

impl View for CGroup {
    type V = Seq<Seq<char>>;

    open spec fn view(&self) -> Seq<Seq<char>> {
        text::texts(self.names@)
    }
}

/// What a sequence of control groups holds.
pub open spec fn cgroup_views(cgroups: Seq<CGroup>) -> Seq<Seq<Seq<char>>> {
    cgroups.map_values(|g: CGroup| g@)
}

/// The names in a path, from the parts between its slashes: those that are
/// not empty and not the dot for the directory itself.
pub open spec fn names_in(parts: Seq<Seq<char>>) -> Seq<Seq<char>>
    decreases parts.len(),
{
    if parts.len() == 0 {
        seq![]
    } else {
        let before = names_in(parts.drop_last());
        if parts.last().len() == 0 || parts.last() == "."@ {
            before
        } else {
            before.push(parts.last())
        }
    }
}

/// The control group at a path.
pub open spec fn cgroup_at(path: Seq<char>) -> Seq<Seq<char>> {
    names_in(text::split(path, '/'))
}

/// The names with a slash before each.
pub open spec fn slashed(names: Seq<Seq<char>>) -> Seq<char>
    decreases names.len(),
{
    if names.len() == 0 {
        seq![]
    } else {
        slashed(names.drop_last()) + seq!['/'] + names.last()
    }
}

/// The path of a control group.
pub open spec fn path_of(names: Seq<Seq<char>>) -> Seq<char> {
    if names.len() == 0 {
        seq!['/']
    } else {
        slashed(names)
    }
}

/// Each name can stand between two slashes.
pub open spec fn proper(names: Seq<Seq<char>>) -> bool {
    forall|i: int| 0 <= i < names.len() ==> proper_name(#[trigger] names[i])
}

/// The name can stand between two slashes.
pub open spec fn proper_name(name: Seq<char>) -> bool {
    name.len() > 0 && name != "."@ && !name.contains('/')
}

/// The control group at the root of the cgroup file system.
pub open spec fn root_names() -> Seq<Seq<char>> {
    cgroup_at(CGROUP_ROOT@)
}

/// The control group lies in the cgroup file system.
pub open spec fn in_hierarchy(names: Seq<Seq<char>>) -> bool {
    root_names().is_prefix_of(names)
}

/// The control group above, if there is one in the cgroup file system.
pub open spec fn parent_of(names: Seq<Seq<char>>) -> Option<Seq<Seq<char>>> {
    if in_hierarchy(names) && names.len() > root_names().len() {
        Some(names.drop_last())
    } else {
        None
    }
}

/// The last name on the way to the control group.
pub open spec fn name_of(names: Seq<Seq<char>>) -> Seq<char> {
    if names.len() == 0 {
        seq![]
    } else {
        names.last()
    }
}

impl Clone for CGroup {
    fn clone(&self) -> (r: Self)
        ensures
            r@ == self@,
    {
        let mut names: Vec<String> = Vec::new();
        let mut i: usize = 0;
        while i < self.names.len()
            invariant
                i <= self.names.len(),
                names@ == self.names@.take(i as int),
            decreases self.names.len() - i,
        {
            names.push(self.names[i].clone());
            i += 1;
        }
        assert(self.names@.take(i as int) == self.names@);
        CGroup { names }
    }
}

impl CGroup {
    /// The control group at `path`. Repeated slashes, a slash at the end and
    /// dots for the directory itself make no difference; a path that does not
    /// begin with a slash is taken from the root of the file system.
    pub fn from_path(path: &str) -> (cgroup: CGroup)
        ensures
            cgroup@ == cgroup_at(path@),
            proper(cgroup@),
    {
        let chars = text::to_chars(path);
        let parts = text::split_chars(&chars, '/');
        let ghost all = text::split(path@, '/');
        let dot = text::to_chars(".");
        let mut names: Vec<String> = Vec::new();
        let mut i: usize = 0;
        assert(text::texts(names@) == names_in(all.take(0)));
        while i < parts.len()
            invariant
                i <= parts.len(),
                text::pieces(parts@) == all,
                dot@ == "."@,
                text::texts(names@) == names_in(all.take(i as int)),
            decreases parts.len() - i,
        {
            assert(all.take(i + 1).drop_last() == all.take(i as int));
            assert(all.take(i + 1).last() == parts@[i as int]@);
            let part = parts[i];
            if part.len() > 0 && !text::same_chars(part, &dot) {
                let ghost before = names@;
                names.push(text::to_text(part));
                assert(text::texts(names@) == text::texts(before).push(part@));
            }
            i += 1;
        }
        assert(all.take(i as int) == all);
        proof {
            lemma_cgroup_at_proper(path@);
        }
        CGroup { names }
    }

    /// The control group at the root of the cgroup file system.
    pub fn root() -> (cgroup: CGroup)
        ensures
            cgroup@ == root_names(),
    {
        CGroup::from_path(CGROUP_ROOT)
    }

    /// The path of the control group.
    pub fn path(&self) -> (path: String)
        ensures
            path@ == path_of(self@),
    {
        let mut path = String::new();
        let mut i: usize = 0;
        assert(self@.take(0) == Seq::<Seq<char>>::empty());
        while i < self.names.len()
            invariant
                i <= self.names.len(),
                path@ == slashed(self@.take(i as int)),
            decreases self.names.len() - i,
        {
            assert(self@.take(i + 1).drop_last() == self@.take(i as int));
            assert(self@.take(i + 1).last() == self.names@[i as int]@);
            path.push('/');
            let name = text::to_chars(self.names[i].as_str());
            text::push_chars(&mut path, &name);
            assert(path@ == slashed(self@.take(i as int)) + seq!['/'] + name@);
            i += 1;
        }
        assert(self@.take(i as int) == self@);
        if self.names.len() == 0 {
            path.push('/');
            assert(path@ == seq!['/']);
        }
        path
    }

    /// The last name on the way to the control group.
    pub fn name(&self) -> (name: String)
        ensures
            name@ == name_of(self@),
    {
        let n: usize = self.names.len();
        if n == 0 {
            String::new()
        } else {
            self.names[n - 1].clone()
        }
    }

    /// Whether the two are the same control group.
    pub fn same(&self, other: &CGroup) -> (yes: bool)
        ensures
            yes == (self@ == other@),
    {
        if self.names.len() != other.names.len() {
            assert(self@.len() != other@.len());
            return false;
        }
        starts_with_names(&self.names, &other.names)
    }

    /// Whether the control group lies in the cgroup file system.
    pub fn is_in_hierarchy(&self) -> (yes: bool)
        ensures
            yes == in_hierarchy(self@),
    {
        let root = CGroup::root();
        starts_with_names(&self.names, &root.names)
    }

    /// The control group above, if there is one in the cgroup file system.
    pub fn parent(&self) -> (parent: Option<CGroup>)
        ensures
            match parent {
                Some(p) => parent_of(self@) == Some(p@),
                None => parent_of(self@) is None,
            },
    {
        let root = CGroup::root();
        if !self.is_in_hierarchy() || self.names.len() <= root.names.len() {
            return None;
        }
        let mut above = self.clone();
        above.names.pop();
        assert(above@ == self@.drop_last());
        Some(above)
    }
}

fn starts_with_names(names: &Vec<String>, prefix: &Vec<String>) -> (yes: bool)
    ensures
        yes == text::texts(prefix@).is_prefix_of(text::texts(names@)),
        names.len() == prefix.len() ==> yes == (text::texts(prefix@) == text::texts(names@)),
{
    let ghost a = text::texts(names@);
    let ghost b = text::texts(prefix@);
    if names.len() < prefix.len() {
        return false;
    }
    let mut i: usize = 0;
    while i < prefix.len()
        invariant
            i <= prefix.len(),
            prefix.len() <= names.len(),
            a == text::texts(names@),
            b == text::texts(prefix@),
            forall|j: int| 0 <= j < i ==> a[j] == b[j],
        decreases prefix.len() - i,
    {
        assert(a[i as int] == names@[i as int]@);
        assert(b[i as int] == prefix@[i as int]@);
        if names[i] != prefix[i] {
            assert(a[i as int] != b[i as int]);
            assert(a.take(b.len() as int)[i as int] == a[i as int]);
            return false;
        }
        i += 1;
    }
    assert(a.take(b.len() as int) == b);
    assert(names.len() == prefix.len() ==> a == b);
    true
}

// ---------------------------------------------------------------------------
// User slices and units
// ---------------------------------------------------------------------------

/// The user that a slice of that name belongs to, as written in the name.
pub open spec fn slice_user(name: Seq<char>) -> Option<Seq<char>> {
    if "user-"@.is_prefix_of(name) && ".slice"@.is_suffix_of(name) {
        let id = name.subrange(5, name.len() - 6);
        if text::u32_value(id) is Some {
            Some(id)
        } else {
            None
        }
    } else {
        None
    }
}

/// The user whose slice is the nearest above a control group.
pub open spec fn user_above(names: Seq<Seq<char>>) -> Option<Seq<char>>
    decreases names.len(),
{
    match parent_of(names) {
        Some(parent) => if parent.len() < names.len() {
            match slice_user(name_of(parent)) {
                Some(id) => Some(id),
                None => user_above(parent),
            }
        } else {
            None
        },
        None => None,
    }
}

/// A name with both ends of a user slice is long enough to have them apart.
proof fn lemma_slice_name(name: Seq<char>)
    requires
        "user-"@.is_prefix_of(name),
        ".slice"@.is_suffix_of(name),
    ensures
        name.len() >= 11,
{
    reveal_strlit("user-");
    reveal_strlit(".slice");
    let n = name.len();
    assert(name.subrange(0, 5)[4] == name[4]);
    assert(name.subrange(n - 6, n as int)[0] == name[n - 6]);
    if n < 11 {
        assert(n >= 6);
        assert(name[n - 6] == '.');
        assert(name.subrange(0, 5)[n - 6] == name[n - 6]);
        assert("user-"@[n - 6] == '.');
        assert(0 <= n - 6 < 5);
        assert("user-"@[0] != '.' && "user-"@[1] != '.' && "user-"@[2] != '.' && "user-"@[3] != '.'
            && "user-"@[4] != '.');
    }
}

fn find_slice_user(name: &str) -> (id: Option<String>)
    ensures
        match id {
            Some(s) => slice_user(name@) == Some(s@),
            None => slice_user(name@) is None,
        },
{
    let chars = text::to_chars(name);
    let all: &[char] = &chars;
    let start = text::to_chars("user-");
    let end = text::to_chars(".slice");
    if !text::starts_with(all, &start) || !text::ends_with(all, &end) {
        return None;
    }
    proof {
        lemma_slice_name(name@);
    }
    let id = slice_subrange(all, 5, all.len() - 6);
    if text::parse_u32(id).is_some() {
        Some(text::to_text(id))
    } else {
        None
    }
}

/// The user whose slice is the nearest above `cgroup`, as written in the name
/// of the slice.
pub fn user_slice_id(cgroup: &CGroup) -> (id: Option<String>)
    ensures
        match id {
            Some(s) => user_above(cgroup@) == Some(s@),
            None => user_above(cgroup@) is None,
        },
{
    let mut parent = match cgroup.parent() {
        Some(parent) => parent,
        None => {
            return None;
        },
    };
    loop
        invariant
            user_above(cgroup@) == (match slice_user(name_of(parent@)) {
                Some(id) => Some(id),
                None => user_above(parent@),
            }),
        decreases parent@.len(),
    {
        let name = parent.name();
        if let Some(id) = find_slice_user(name.as_str()) {
            return Some(id);
        }
        match parent.parent() {
            Some(grandparent) => {
                parent = grandparent;
            },
            None => {
                return None;
            },
        }
    }
}

/// The control group that the lines of a process's `cgroup` file name for the
/// unified hierarchy, the first that does.
pub open spec fn place_in_lines(lines: Seq<Seq<char>>) -> Option<Seq<Seq<char>>>
    decreases lines.len(),
{
    if lines.len() == 0 {
        None
    } else if "0::"@.is_prefix_of(lines[0]) {
        Some(cgroup_at(CGROUP_ROOT@ + lines[0].skip("0::"@.len() as int)))
    } else {
        place_in_lines(lines.skip(1))
    }
}

/// Reads the control group of a process from its `cgroup` file.
pub fn parse_process_cgroup(contents: &str) -> (place: Option<CGroup>)
    ensures
        match place {
            Some(g) => place_in_lines(text::lines(contents@)) == Some(g@),
            None => place_in_lines(text::lines(contents@)) is None,
        },
{
    let chars = text::to_chars(contents);
    let lines = text::split_lines(&chars);
    let ghost all = text::lines(contents@);
    let mark = text::to_chars("0::");
    let mut i: usize = 0;
    assert(all.skip(0) == all);
    while i < lines.len()
        invariant
            i <= lines.len(),
            all == text::lines(contents@),
            text::pieces(lines@) == all,
            mark@ == "0::"@,
            place_in_lines(all.skip(i as int)) == place_in_lines(all),
        decreases lines.len() - i,
    {
        let ghost rest = all.skip(i as int);
        assert(rest[0] == lines@[i as int]@);
        assert(rest.skip(1) == all.skip(i + 1));
        let line = lines[i];
        if text::starts_with(line, &mark) {
            let path = slice_subrange(line, mark.len(), line.len());
            assert(path@ == line@.skip(mark@.len() as int));
            let path = text::to_text(path);
            return Some(unit_cgroup(path.as_str()));
        }
        i += 1;
    }
    None
}

/// The control group that a unit of the service manager names, by a path
/// within the cgroup file system.
pub fn unit_cgroup(control_group: &str) -> (cgroup: CGroup)
    ensures
        cgroup@ == cgroup_at(CGROUP_ROOT@ + control_group@),
{
    let path = CGROUP_ROOT.to_owned().concat(control_group);
    CGroup::from_path(path.as_str())
}

// ---------------------------------------------------------------------------
// Device memory
// ---------------------------------------------------------------------------

/// An amount of memory of one device.
#[derive(Debug)]
pub struct DeviceMemory {
    pub device: String,
    pub bytes: u64,
}

/// Amounts of memory, device by device. Each device is there once, as
/// [`one_each`] says.
#[derive(Debug)]
pub struct DMemLimit {
    pub devices: Vec<DeviceMemory>,
}

/// What amounts of memory hold.
pub open spec fn amounts(devices: Seq<DeviceMemory>) -> Seq<(Seq<char>, u64)> {
    devices.map_values(|d: DeviceMemory| (d.device@, d.bytes))
}

impl View for DMemLimit {
    type V = Seq<(Seq<char>, u64)>;

    open spec fn view(&self) -> Seq<(Seq<char>, u64)> {
        amounts(self.devices@)
    }
}

/// No device is there twice.
pub open spec fn one_each(limits: Seq<(Seq<char>, u64)>) -> bool {
    forall|i: int, j: int| 0 <= i < j < limits.len() ==> limits[i].0 != limits[j].0
}

/// The device is there.
pub open spec fn has_device(limits: Seq<(Seq<char>, u64)>, device: Seq<char>) -> bool {
    exists|i: int| 0 <= i < limits.len() && (#[trigger] limits[i]).0 == device
}

/// The amounts with one set: it replaces the one of its device, or is added
/// where the device is not there.
pub open spec fn with_amount(
    limits: Seq<(Seq<char>, u64)>,
    amount: (Seq<char>, u64),
) -> Seq<(Seq<char>, u64)> {
    if has_device(limits, amount.0) {
        limits.map_values(
            |d: (Seq<char>, u64)|
                if d.0 == amount.0 {
                    amount
                } else {
                    d
                },
        )
    } else {
        limits.push(amount)
    }
}

/// The same devices, with no memory.
pub open spec fn emptied(limits: Seq<(Seq<char>, u64)>) -> Seq<(Seq<char>, u64)> {
    limits.map_values(|d: (Seq<char>, u64)| (d.0, 0u64))
}

impl Clone for DMemLimit {
    fn clone(&self) -> (r: Self)
        ensures
            r@ == self@,
    {
        let mut devices: Vec<DeviceMemory> = Vec::new();
        let mut i: usize = 0;
        while i < self.devices.len()
            invariant
                i <= self.devices.len(),
                devices@ == self.devices@.take(i as int),
            decreases self.devices.len() - i,
        {
            devices.push(
                DeviceMemory {
                    device: self.devices[i].device.clone(),
                    bytes: self.devices[i].bytes,
                },
            );
            i += 1;
        }
        assert(self.devices@.take(i as int) == self.devices@);
        DMemLimit { devices }
    }
}

impl DMemLimit {
    /// The same devices, with no memory.
    pub fn zeroed(&self) -> (r: DMemLimit)
        ensures
            r@ == emptied(self@),
            one_each(self@) ==> one_each(r@),
    {
        let mut devices: Vec<DeviceMemory> = Vec::new();
        let mut i: usize = 0;
        while i < self.devices.len()
            invariant
                i <= self.devices.len(),
                amounts(devices@) == emptied(self@.take(i as int)),
            decreases self.devices.len() - i,
        {
            let ghost before = devices@;
            devices.push(DeviceMemory { device: self.devices[i].device.clone(), bytes: 0 });
            assert(self@[i as int].0 == self.devices@[i as int].device@);
            assert(amounts(devices@) == amounts(before).push((self@[i as int].0, 0u64)));
            assert(emptied(self@.take(i + 1)) == emptied(self@.take(i as int)).push(
                (self@[i as int].0, 0u64),
            ));
            i += 1;
        }
        assert(self@.take(i as int) == self@);
        DMemLimit { devices }
    }
}

/// The amount that a line of a `dmem` file states: a device and a number of
/// bytes.
pub open spec fn amount_in(line: Seq<char>) -> Option<(Seq<char>, u64)> {
    let words = text::words(line);
    if words.len() == 2 && text::u64_value(words[1]) is Some {
        Some((words[0], text::u64_value(words[1])->0))
    } else {
        None
    }
}

/// The amounts that lines state, each device once: a later line replaces an
/// earlier one. Other lines state none.
pub open spec fn amounts_in(lines: Seq<Seq<char>>) -> Seq<(Seq<char>, u64)>
    decreases lines.len(),
{
    if lines.len() == 0 {
        seq![]
    } else {
        match amount_in(lines.last()) {
            Some(amount) => with_amount(amounts_in(lines.drop_last()), amount),
            None => amounts_in(lines.drop_last()),
        }
    }
}

/// Reads the controllers of a control group from its `cgroup.subtree_control`
/// file.
pub fn parse_controllers(contents: &str) -> (controllers: Vec<String>)
    ensures
        text::texts(controllers@) == text::words(contents@),
{
    let chars = text::to_chars(contents);
    let words = text::split_words(&chars);
    let ghost all = text::words(contents@);
    let mut controllers: Vec<String> = Vec::new();
    let mut i: usize = 0;
    assert(text::texts(controllers@) == all.take(0));
    while i < words.len()
        invariant
            i <= words.len(),
            text::pieces(words@) == all,
            text::texts(controllers@) == all.take(i as int),
        decreases words.len() - i,
    {
        let ghost before = controllers@;
        assert(all[i as int] == words@[i as int]@);
        controllers.push(text::to_text(words[i]));
        assert(text::texts(controllers@) == text::texts(before).push(all[i as int]));
        assert(all.take(i + 1) == all.take(i as int).push(all[i as int]));
        i += 1;
    }
    assert(all.take(i as int) == all);
    controllers
}

/// Sets the amount of a device.
fn set_amount(devices: &mut Vec<DeviceMemory>, device: String, bytes: u64)
    requires
        one_each(amounts(old(devices)@)),
    ensures
        amounts(final(devices)@) == with_amount(amounts(old(devices)@), (device@, bytes)),
        one_each(amounts(final(devices)@)),
{
    let ghost before = amounts(devices@);
    let ghost amount = (device@, bytes);
    let mut i: usize = 0;
    while i < devices.len()
        invariant
            i <= devices.len(),
            *devices == *old(devices),
            before == amounts(devices@),
            one_each(before),
            amount == (device@, bytes),
            forall|j: int| 0 <= j < i ==> (#[trigger] before[j]).0 != device@,
        decreases devices.len() - i,
    {
        assert(before[i as int].0 == devices@[i as int].device@);
        if devices[i].device == device {
            assert(has_device(before, device@));
            devices.set(i, DeviceMemory { device, bytes });
            let ghost after = amounts(devices@);
            assert(after == before.update(i as int, amount));
            assert(after == with_amount(before, amount));
            return;
        }
        i += 1;
    }
    devices.push(DeviceMemory { device, bytes });
    assert(amounts(devices@) == before.push(amount));
    assert(!has_device(before, amount.0));
}

/// Reads device memory from a `dmem` file.
pub fn parse_device_memory(contents: &str) -> (limits: DMemLimit)
    ensures
        limits@ == amounts_in(text::lines(contents@)),
        one_each(limits@),
{
    let chars = text::to_chars(contents);
    let lines = text::split_lines(&chars);
    let ghost all = text::lines(contents@);
    let mut devices: Vec<DeviceMemory> = Vec::new();
    let mut i: usize = 0;
    assert(amounts(devices@) == amounts_in(all.take(0)));
    while i < lines.len()
        invariant
            i <= lines.len(),
            text::pieces(lines@) == all,
            amounts(devices@) == amounts_in(all.take(i as int)),
            one_each(amounts(devices@)),
        decreases lines.len() - i,
    {
        assert(all.take(i + 1).drop_last() == all.take(i as int));
        assert(all.take(i + 1).last() == lines@[i as int]@);
        let words = text::split_words(lines[i]);
        let ghost named = text::words(lines@[i as int]@);
        assert(words.len() == named.len());
        if words.len() == 2 {
            assert(text::pieces(words@)[0] == words@[0]@);
            assert(text::pieces(words@)[1] == words@[1]@);
            if let Some(bytes) = text::parse_u64(words[1]) {
                set_amount(&mut devices, text::to_text(words[0]), bytes);
                assert(named[0] == words@[0]@);
            }
        }
        i += 1;
    }
    assert(all.take(i as int) == all);
    DMemLimit { devices }
}

impl DeviceMemory {
    /// The line of a `dmem` file that states the amount.
    pub fn line(&self) -> (line: String)
        ensures
            line@ == self.device@ + " "@ + text::decimal(self.bytes as nat),
    {
        let mut line = self.device.clone().concat(" ");
        text::push_decimal(&mut line, self.bytes);
        line
    }
}

// ---------------------------------------------------------------------------
// Laws
// ---------------------------------------------------------------------------

proof fn lemma_split_has_no_separator(s: Seq<char>, c: char, k: int)
    requires
        0 <= k < text::split(s, c).len(),
    ensures
        !text::split(s, c)[k].contains(c),
    decreases s.len(),
{
    match text::position(s, c) {
        Some(i) => {
            assert(text::first_index(s, c, i));
            if k == 0 {
                let first = s.take(i);
                assert forall|j: int| 0 <= j < first.len() implies first[j] != c by {
                    assert(first[j] == s[j]);
                }
            } else {
                lemma_split_has_no_separator(s.skip(i + 1), c, k - 1);
            }
        },
        None => {
            if s.contains(c) {
                let j = choose|j: int| 0 <= j < s.len() && s[j] == c;
                text::lemma_has_first(s, c, j);
            }
        },
    }
}

proof fn lemma_names_in_proper(parts: Seq<Seq<char>>)
    requires
        forall|i: int| 0 <= i < parts.len() ==> !(#[trigger] parts[i]).contains('/'),
    ensures
        proper(names_in(parts)),
    decreases parts.len(),
{
    if parts.len() > 0 {
        assert forall|i: int| 0 <= i < parts.drop_last().len() implies !(
        #[trigger] parts.drop_last()[i]).contains('/') by {
            assert(parts.drop_last()[i] == parts[i]);
        }
        lemma_names_in_proper(parts.drop_last());
        assert(!parts[parts.len() - 1].contains('/'));
    }
}

proof fn lemma_cgroup_at_proper(path: Seq<char>)
    ensures
        proper(cgroup_at(path)),
{
    let parts = text::split(path, '/');
    assert forall|i: int| 0 <= i < parts.len() implies !(#[trigger] parts[i]).contains('/') by {
        lemma_split_has_no_separator(path, '/', i);
    }
    lemma_names_in_proper(parts);
}

proof fn lemma_slashed(names: Seq<Seq<char>>)
    requires
        proper(names),
    ensures
        text::split(slashed(names), '/') == seq![Seq::<char>::empty()] + names,
        names_in(seq![Seq::<char>::empty()] + names) == names,
    decreases names.len(),
{
    let empty = Seq::<char>::empty();
    if names.len() == 0 {
        text::lemma_split_one(slashed(names), '/');
        assert(slashed(names) == empty);
        assert(seq![empty] + names == seq![empty]);
        assert(seq![empty].drop_last() == Seq::<Seq<char>>::empty());
        reveal_with_fuel(names_in, 2);
        assert(names_in(seq![empty]) == names);
    } else {
        let rest = names.drop_last();
        assert forall|i: int| 0 <= i < rest.len() implies proper_name(#[trigger] rest[i]) by {
            assert(rest[i] == names[i]);
        }
        assert(proper_name(names[names.len() - 1]));
        lemma_slashed(rest);
        text::lemma_split_concat(slashed(rest), '/', names.last());
        text::lemma_split_one(names.last(), '/');
        assert(seq![empty] + rest + seq![names.last()] == seq![empty] + names);
        assert((seq![empty] + names).drop_last() == seq![empty] + rest);
        assert(rest.push(names.last()) == names);
    }
}

/// The path of a control group leads back to it.
pub proof fn path_leads_back(names: Seq<Seq<char>>)
    requires
        proper(names),
    ensures
        cgroup_at(path_of(names)) == names,
{
    lemma_slashed(names);
    if names.len() == 0 {
        let empty = Seq::<char>::empty();
        text::lemma_split_concat(empty, '/', empty);
        text::lemma_split_one(empty, '/');
        assert(empty + seq!['/'] + empty == seq!['/']);
        assert(seq![empty] + seq![empty] == seq![empty, empty]);
        assert(seq![empty, empty].drop_last() == seq![empty]);
        assert(seq![empty].drop_last() == Seq::<Seq<char>>::empty());
        reveal_with_fuel(names_in, 3);
        assert(names_in(seq![empty, empty]) == names);
    }
}

/// The root of the cgroup file system is the directory `cgroup` in `fs` in
/// `sys`.
pub proof fn root_has_three_names()
    ensures
        root_names() == seq!["sys"@, "fs"@, "cgroup"@],
        proper(root_names()),
{
    reveal_strlit("sys");
    reveal_strlit("fs");
    reveal_strlit("cgroup");
    reveal_strlit(".");
    reveal_strlit("/sys/fs/cgroup");
    let names = seq!["sys"@, "fs"@, "cgroup"@];
    assert(proper(names)) by {
        assert("sys"@.len() == 3 && "fs"@.len() == 2 && "cgroup"@.len() == 6 && "."@.len() == 1);
        assert(proper_name("sys"@));
        assert(proper_name("fs"@));
        assert(proper_name("cgroup"@));
    }
    reveal_with_fuel(slashed, 4);
    assert(names.drop_last() == seq!["sys"@, "fs"@]);
    assert(names.drop_last().drop_last() == seq!["sys"@]);
    assert(names.drop_last().drop_last().drop_last() == Seq::<Seq<char>>::empty());
    assert(slashed(names) =~= CGROUP_ROOT@);
    path_leads_back(names);
}

/// The user above a control group is that of the nearest slice of a user: no
/// control group between the two is such a slice.
pub proof fn nearest_user_slice_counts(names: Seq<Seq<char>>, id: Seq<char>)
    requires
        user_above(names) == Some(id),
    ensures
        exists|n: int|
            root_names().len() <= n < names.len() && slice_user(
                name_of(#[trigger] names.take(n)),
            ) == Some(id) && forall|m: int|
                n < m < names.len() ==> slice_user(name_of(#[trigger] names.take(m))) is None,
    decreases names.len(),
{
    let parent = parent_of(names)->0;
    let n = names.len() - 1;
    assert(names.take(n) == parent);
    if slice_user(name_of(parent)) is Some {
        assert(slice_user(name_of(names.take(n))) == Some(id));
    } else {
        nearest_user_slice_counts(parent, id);
        let k = choose|k: int|
            root_names().len() <= k < parent.len() && slice_user(
                name_of(#[trigger] parent.take(k)),
            ) == Some(id) && forall|m: int|
                k < m < parent.len() ==> slice_user(name_of(#[trigger] parent.take(m))) is None;
        assert(names.take(k) == parent.take(k));
        assert forall|m: int| k < m < names.len() implies slice_user(
            name_of(#[trigger] names.take(m)),
        ) is None by {
            if m < n {
                assert(names.take(m) == parent.take(m));
            }
        }
    }
}

/// What is written of an amount reads back as that amount, for a device whose
/// name can stand in a line.
pub proof fn amounts_read_back(device: Seq<char>, bytes: u64)
    requires
        device.len() > 0,
        forall|i: int| 0 <= i < device.len() ==> !text::white_space(#[trigger] device[i]),
    ensures
        amount_in(device + " "@ + text::decimal(bytes as nat)) == Some((device, bytes)),
{
    reveal_strlit(" ");
    let digits = text::decimal(bytes as nat);
    let line = device + " "@ + digits;
    text::lemma_decimal(bytes as nat);
    assert(" "@.len() == 1 && " "@[0] == ' ');
    assert(line[0] == device[0]);
    assert(!text::white_space(device[0]));
    assert(text::trimmed_start(line) == line);
    text::lemma_word_len(line);
    let n = text::word_len(line);
    assert(line[device.len() as int] == ' ');
    if n < device.len() {
        assert(line[n as int] == device[n as int]);
    }
    assert(n == device.len());
    assert(line.take(n as int) == device);
    let rest = line.skip(n as int);
    assert(rest == seq![' '] + digits);
    assert(rest.skip(1) == digits);
    assert(text::is_digit(digits[0], 10));
    reveal_with_fuel(text::trimmed_start, 2);
    assert(text::trimmed_start(rest) == digits);
    text::lemma_word_len(digits);
    let m = text::word_len(digits);
    if m < digits.len() {
        assert(text::is_digit(digits[m as int], 10));
    }
    assert(digits.take(m as int) == digits);
    assert(digits.skip(m as int) == Seq::<char>::empty());
    assert(text::words(Seq::<char>::empty()) == Seq::<Seq<char>>::empty());
    assert(text::words(rest) == seq![digits]);
    assert(text::words(line) == seq![device, digits]);
    assert(text::u64_value(digits) == Some(bytes));
}

proof fn lemma_with_amount(limits: Seq<(Seq<char>, u64)>, amount: (Seq<char>, u64))
    requires
        one_each(limits),
    ensures
        one_each(with_amount(limits, amount)),
        with_amount(limits, amount).contains(amount),
        forall|other: (Seq<char>, u64)|
            other.0 != amount.0 ==> #[trigger] with_amount(limits, amount).contains(other)
                == limits.contains(other),
{
    let after = with_amount(limits, amount);
    if has_device(limits, amount.0) {
        let i = choose|i: int| 0 <= i < limits.len() && (#[trigger] limits[i]).0 == amount.0;
        assert(after[i] == amount);
    } else {
        assert(after[limits.len() as int] == amount);
    }
    assert forall|other: (Seq<char>, u64)| other.0 != amount.0 implies #[trigger] after.contains(
        other,
    ) == limits.contains(other) by {
        if limits.contains(other) {
            let k = choose|k: int| 0 <= k < limits.len() && limits[k] == other;
            assert(after[k] == other);
        }
        if after.contains(other) {
            let k = choose|k: int| 0 <= k < after.len() && after[k] == other;
            assert(limits[k] == other);
        }
    }
}

/// The line states an amount of the device.
pub open spec fn is_about(line: Seq<char>, device: Seq<char>) -> bool {
    amount_in(line) matches Some(amount) && amount.0 == device
}

/// The line at `k` is the last that states an amount of the device.
pub open spec fn last_about(lines: Seq<Seq<char>>, device: Seq<char>, k: int) -> bool {
    &&& 0 <= k < lines.len()
    &&& is_about(lines[k], device)
    &&& forall|m: int| k < m < lines.len() ==> !is_about(#[trigger] lines[m], device)
}

/// The amount of a device is the one that the last line about it states, and
/// no device is there twice.
pub proof fn the_last_line_about_a_device_counts(
    lines: Seq<Seq<char>>,
    device: Seq<char>,
    bytes: u64,
)
    ensures
        one_each(amounts_in(lines)),
        amounts_in(lines).contains((device, bytes)) <==> exists|k: int| #[trigger]
            last_about(lines, device, k) && amount_in(lines[k]) == Some((device, bytes)),
    decreases lines.len(),
{
    if lines.len() > 0 {
        let rest = lines.drop_last();
        let n = lines.len() - 1;
        let before = amounts_in(rest);
        let after = amounts_in(lines);
        the_last_line_about_a_device_counts(rest, device, bytes);
        assert(forall|m: int| 0 <= m < n ==> #[trigger] lines[m] == rest[m]);
        assert(lines[n] == lines.last());
        if let Some(amount) = amount_in(lines.last()) {
            lemma_with_amount(before, amount);
        }
        if is_about(lines.last(), device) {
            assert(last_about(lines, device, n));
            assert(forall|k: int| #[trigger] last_about(lines, device, k) ==> k == n);
            if after.contains((device, bytes)) {
                let amount = amount_in(lines.last())->0;
                let i = choose|i: int| 0 <= i < after.len() && after[i] == (device, bytes);
                let j = choose|j: int| 0 <= j < after.len() && after[j] == amount;
                assert(i == j);
            }
        } else {
            assert forall|k: int| #[trigger] last_about(lines, device, k) == last_about(
                rest,
                device,
                k,
            ) by {
                if last_about(lines, device, k) {
                    assert forall|m: int| k < m < rest.len() implies !is_about(
                        #[trigger] rest[m],
                        device,
                    ) by {
                        assert(lines[m] == rest[m]);
                    }
                }
            }
            if before.contains((device, bytes)) {
                let k = choose|k: int| #[trigger]
                    last_about(rest, device, k) && amount_in(rest[k]) == Some((device, bytes));
                assert(last_about(lines, device, k));
            }
        }
    }
}

/// A path is read part by part: what stands between two slashes is a name,
/// unless it is empty or the dot for the directory itself.
pub proof fn paths_are_read_part_by_part(a: Seq<char>, b: Seq<char>, part: Seq<char>)
    requires
        !part.contains('/'),
    ensures
        cgroup_at(a + seq!['/'] + b) == cgroup_at(a) + cgroup_at(b),
        part.len() > 0 && part != seq!['.'] ==> cgroup_at(part) == seq![part],
        cgroup_at(seq!['.']) == Seq::<Seq<char>>::empty(),
        cgroup_at(Seq::empty()) == Seq::<Seq<char>>::empty(),
{
    reveal_strlit(".");
    assert("."@ == seq!['.']);
    text::lemma_split_concat(a, '/', b);
    lemma_names_in_concat(text::split(a, '/'), text::split(b, '/'));
    reveal_with_fuel(names_in, 2);
    text::lemma_split_one(part, '/');
    assert(seq![part].drop_last() == Seq::<Seq<char>>::empty());
    assert(Seq::<Seq<char>>::empty().push(part) == seq![part]);
    let dot = seq!['.'];
    text::lemma_split_one(dot, '/');
    assert(seq![dot].drop_last() == Seq::<Seq<char>>::empty());
    let nothing = Seq::<char>::empty();
    text::lemma_split_one(nothing, '/');
    assert(seq![nothing].drop_last() == Seq::<Seq<char>>::empty());
}

proof fn lemma_names_in_concat(a: Seq<Seq<char>>, b: Seq<Seq<char>>)
    ensures
        names_in(a + b) == names_in(a) + names_in(b),
    decreases b.len(),
{
    if b.len() == 0 {
        assert(a + b == a);
        assert(names_in(a) + names_in(b) == names_in(a));
    } else {
        assert((a + b).drop_last() == a + b.drop_last());
        lemma_names_in_concat(a, b.drop_last());
        assert(names_in(a + b) == names_in(a) + names_in(b));
    }
}

/// The path of a control group is that of the one above with its name behind a
/// slash.
pub proof fn paths_grow_by_names(names: Seq<Seq<char>>, name: Seq<char>)
    ensures
        names.len() > 0 ==> path_of(names.push(name)) == path_of(names) + seq!['/'] + name,
        path_of(seq![name]) == seq!['/'] + name,
        path_of(Seq::empty()) == seq!['/'],
{
    assert(names.push(name).drop_last() == names);
    assert(seq![name].drop_last() == Seq::<Seq<char>>::empty());
    reveal_with_fuel(slashed, 2);
    assert(Seq::<char>::empty() + seq!['/'] + name == seq!['/'] + name);
}

/// A control group lies in the hierarchy if its path begins with that of the
/// root, name by name. The one above it is what its path is without the last
/// name, down to the root, which has none above it.
pub proof fn the_hierarchy_begins_at_the_root(names: Seq<Seq<char>>)
    ensures
        in_hierarchy(names) <==> names.len() >= 3 && names[0] == "sys"@ && names[1] == "fs"@
            && names[2] == "cgroup"@,
        in_hierarchy(names) && names.len() > 3 ==> parent_of(names) == Some(
            names.take(names.len() - 1),
        ),
        !in_hierarchy(names) || names.len() <= 3 ==> parent_of(names) is None,
        names.len() > 0 ==> name_of(names) == names[names.len() - 1],
{
    root_has_three_names();
    let root = root_names();
    if names.len() >= 3 {
        assert(names.take(3)[0] == names[0] && names.take(3)[1] == names[1] && names.take(3)[2]
            == names[2]);
        if names[0] == "sys"@ && names[1] == "fs"@ && names[2] == "cgroup"@ {
            assert(names.take(3) == root);
        }
    }
    if names.len() > 0 {
        assert(names.drop_last() == names.take(names.len() - 1));
    }
}

/// The slice of a user is named after the user's number, whatever that is, and
/// no control group of another name is one.
pub proof fn slices_of_users_are_named_by_number(name: Seq<char>, id: Seq<char>)
    ensures
        slice_user(name) == Some(id) <==> name == "user-"@ + id + ".slice"@ && text::u32_value(
            id,
        ) is Some,
        slice_user(name) is Some ==> name == "user-"@ + slice_user(name)->0 + ".slice"@,
{
    reveal_strlit("user-");
    reveal_strlit(".slice");
    let start = "user-"@;
    let end = ".slice"@;
    assert(start.len() == 5 && end.len() == 6);
    let made = start + id + end;
    assert(made.take(5) == start);
    assert(made.skip(made.len() - 6) == end);
    assert(made.subrange(made.len() - 6, made.len() as int) == end);
    assert(made.subrange(5, made.len() - 6) == id);
    if start.is_prefix_of(name) && end.is_suffix_of(name) {
        lemma_slice_name(name);
        let n = name.len() as int;
        assert(name.subrange(0, 5) == start);
        assert(name.subrange(n - 6, n) == end);
        assert(name == name.subrange(0, 5) + name.subrange(5, n - 6) + name.subrange(n - 6, n));
    }
}

/// The user above a control group is told by the names on its path: it is that
/// of the last name before its own which is the slice of a user, and there is
/// none where no name between the root's and its own is one.
pub proof fn users_above_are_told_by_names(names: Seq<Seq<char>>, k: int)
    requires
        in_hierarchy(names),
        2 <= k,
        forall|m: int| k < m < names.len() - 1 ==> slice_user(#[trigger] names[m]) is None,
    ensures
        3 <= k < names.len() - 1 && slice_user(names[k]) is Some ==> user_above(names)
            == slice_user(names[k]),
        k == 2 ==> user_above(names) is None,
    decreases names.len(),
{
    the_hierarchy_begins_at_the_root(names);
    if names.len() > 3 {
        let parent = names.take(names.len() - 1);
        let n = names.len() as int;
        assert(name_of(parent) == names[n - 2]);
        the_hierarchy_begins_at_the_root(parent);
        if k < n - 2 {
            if n - 2 == 2 {
                lemma_root_is_no_slice();
                the_hierarchy_begins_at_the_root(parent);
                assert(parent_of(parent) is None);
            } else {
                assert(slice_user(names[n - 2]) is None);
                assert forall|m: int| k < m < parent.len() - 1 implies slice_user(
                    #[trigger] parent[m],
                ) is None by {
                    assert(parent[m] == names[m]);
                }
                users_above_are_told_by_names(parent, k);
                if 3 <= k {
                    assert(parent[k] == names[k]);
                }
            }
        } else if k < 3 {
            assert(n == 4);
            lemma_root_is_no_slice();
            assert(parent_of(parent) is None);
        }
    }
}

proof fn lemma_root_is_no_slice()
    ensures
        slice_user("cgroup"@) is None,
{
    reveal_strlit("cgroup");
    reveal_strlit("user-");
    assert("cgroup"@.len() == 6);
    assert("user-"@.len() == 5);
    assert("cgroup"@.take(5)[0] == 'c');
    assert("user-"@[0] == 'u');
}

/// Setting the amounts to nothing keeps the devices, in order.
pub proof fn emptying_keeps_the_devices(limits: Seq<(Seq<char>, u64)>, i: int)
    requires
        0 <= i < limits.len(),
    ensures
        emptied(limits).len() == limits.len(),
        emptied(limits)[i].0 == limits[i].0,
        emptied(limits)[i].1 == 0,
{
}

/// A process is in the control group that the first line of the unified
/// hierarchy names, below the root, whatever lines stand around it.
pub proof fn the_unified_line_names_the_place(
    before: Seq<Seq<char>>,
    path: Seq<char>,
    behind: Seq<Seq<char>>,
)
    requires
        forall|i: int| 0 <= i < before.len() ==> !"0::"@.is_prefix_of(#[trigger] before[i]),
    ensures
        place_in_lines(before + seq!["0::"@ + path] + behind) == Some(
            cgroup_at("/sys/fs/cgroup"@ + path),
        ),
        place_in_lines(before) is None,
    decreases before.len(),
{
    reveal_strlit("0::");
    let mark = "0::"@;
    assert(mark.len() == 3);
    let line = mark + path;
    let all = before + seq![line] + behind;
    if before.len() > 0 {
        assert(!mark.is_prefix_of(before[0]));
        assert(all[0] == before[0]);
        assert(all.skip(1) == before.skip(1) + seq![line] + behind);
        assert forall|i: int| 0 <= i < before.skip(1).len() implies !mark.is_prefix_of(
            #[trigger] before.skip(1)[i],
        ) by {
            assert(before.skip(1)[i] == before[i + 1]);
        }
        the_unified_line_names_the_place(before.skip(1), path, behind);
    } else {
        assert(all[0] == line);
        assert(line.take(3) == mark);
        assert(line.skip(3) == path);
    }
}

/// An amount is two words, the device and a number; a line of fewer or more
/// words, or without a number there, states none.
pub proof fn amounts_are_two_words(
    a: Seq<char>,
    device: Seq<char>,
    b: Seq<char>,
    number: Seq<char>,
    c: Seq<char>,
    more: Seq<char>,
)
    requires
        text::is_blank(a) && text::is_blank(b) && text::is_blank(c),
        b.len() > 0,
        text::is_word(device) && text::is_word(number),
    ensures
        amount_in(a + device + (b + number + c)) == match text::u64_value(number) {
            Some(bytes) => Some((device, bytes)),
            None => None,
        },
        amount_in(a + device + b) is None,
        amount_in(a) is None,
        c.len() > 0 && text::words(more).len() > 0 && text::is_word(more) ==> amount_in(
            a + device + (b + number + (c + more)),
        ) is None,
{
    let tail = b + number + c;
    assert(text::white_space(b[0]));
    assert(tail[0] == b[0]);
    if c.len() > 0 {
        assert(text::white_space(c[0]));
    }
    text::words_are_runs(a, device, tail);
    text::words_are_runs(b, number, c);
    text::words_are_runs(c, device, Seq::empty());
    assert(text::words(tail) == seq![number]);
    assert(text::words(a + device + tail) == seq![device, number]);
    text::words_are_runs(a, device, b);
    assert(text::words(a + device + b).len() == 1);
    if c.len() > 0 && text::is_word(more) {
        let longer = b + number + (c + more);
        assert(longer[0] == b[0]);
        assert((c + more)[0] == c[0]);
        let nothing = Seq::<char>::empty();
        assert(c + more + nothing == c + more);
        text::words_are_runs(a, device, longer);
        text::words_are_runs(b, number, c + more);
        text::words_are_runs(c, more, nothing);
        assert(text::words(a + device + longer).len() >= 3);
    }
}

/// Control groups and amounts are taken one for one, in order.
pub proof fn groups_and_amounts_keep_everything(
    groups: Seq<CGroup>,
    devices: Seq<DeviceMemory>,
    i: int,
)
    ensures
        cgroup_views(groups).len() == groups.len(),
        amounts(devices).len() == devices.len(),
        0 <= i < groups.len() ==> cgroup_views(groups)[i] == groups[i]@,
        0 <= i < devices.len() ==> amounts(devices)[i] == (devices[i].device@, devices[i].bytes),
{
}

/// The amounts are set line by line: a line about a device that is there already
/// sets its amount in its place, one about another device adds it at the end,
/// and any other line changes nothing.
pub proof fn amounts_are_set_line_by_line(
    lines: Seq<Seq<char>>,
    line: Seq<char>,
    device: Seq<char>,
    bytes: u64,
)
    requires
        amount_in(line) == Some((device, bytes)) || amount_in(line) is None,
    ensures
        ({
            let before = amounts_in(lines);
            let after = amounts_in(lines.push(line));
            let known = exists|i: int| 0 <= i < before.len() && (#[trigger] before[i]).0 == device;
            &&& amount_in(line) is None ==> after == before
            &&& amount_in(line) is Some && !known ==> after == before.push((device, bytes))
            &&& amount_in(line) is Some && known ==> {
                &&& after.len() == before.len()
                &&& forall|i: int|
                    0 <= i < before.len() ==> #[trigger] after[i] == if before[i].0 == device {
                        (device, bytes)
                    } else {
                        before[i]
                    }
            }
        }),
        amounts_in(Seq::empty()) == Seq::<(Seq<char>, u64)>::empty(),
{
    assert(lines.push(line).drop_last() == lines);
}

} // verus!
