use vstd::prelude::*;

verus! {

/// A text as its characters.
pub type Text = Vec<char>;

/// White space, as Unicode has it.
pub open spec fn is_space(c: char) -> bool {
    let u = c as u32;
    (9 <= u <= 13) || u == 0x20 || u == 0x85 || u == 0xa0 || u == 0x1680 || (0x2000 <= u <= 0x200a)
        || u == 0x2028 || u == 0x2029 || u == 0x202f || u == 0x205f || u == 0x3000
}

fn space(c: char) -> (r: bool)
    ensures
        r == is_space(c),
{
    let u: u32 = c as u32;
    (9 <= u && u <= 13) || u == 0x20 || u == 0x85 || u == 0xa0 || u == 0x1680 || (0x2000 <= u && u <= 0x200a)
        || u == 0x2028 || u == 0x2029 || u == 0x202f || u == 0x205f || u == 0x3000
}

/// `s` without white space at its front.
pub open spec fn trim_front(s: Seq<char>) -> Seq<char>
    decreases s.len(),
{
    if s.len() > 0 && is_space(s[0]) { trim_front(s.skip(1)) } else { s }
}

/// `s` without white space at its end.
pub open spec fn trim_back(s: Seq<char>) -> Seq<char>
    decreases s.len(),
{
    if s.len() > 0 && is_space(s.last()) { trim_back(s.drop_last()) } else { s }
}

pub open spec fn trimmed(s: Seq<char>) -> Seq<char> {
    trim_back(trim_front(s))
}

/// The pieces of `s` from `i` on between separators, where `cur` is the piece begun before `i`.
pub open spec fn pieces(s: Seq<char>, sep: char, i: int, cur: Seq<char>) -> Seq<Seq<char>>
    decreases s.len() - i,
{
    if i < 0 || i >= s.len() {
        seq![cur]
    } else if s[i] == sep {
        seq![cur] + pieces(s, sep, i + 1, Seq::empty())
    } else {
        pieces(s, sep, i + 1, cur.push(s[i]))
    }
}

/// The pieces of `s` between separators.
pub open spec fn split(s: Seq<char>, sep: char) -> Seq<Seq<char>> {
    pieces(s, sep, 0, Seq::empty())
}

pub open spec fn texts(v: Seq<Text>) -> Seq<Seq<char>> {
    Seq::new(v.len(), |i: int| v[i]@)
}

pub fn text_eq(a: &Text, b: &Text) -> (r: bool)
    ensures
        r == (a@ == b@),
{
    if a.len() != b.len() {
        return false;
    }
    let mut i: usize = 0;
    while i < a.len()
        invariant
            i <= a@.len(),
            a@.len() == b@.len(),
            forall|j: int| 0 <= j < i ==> a@[j] == b@[j],
        decreases a@.len() - i,
    {
        if a[i] != b[i] {
            assert(a@[i as int] != b@[i as int]);
            return false;
        }
        i = i + 1;
    }
    assert(a@ =~= b@);
    true
}

pub fn text_copy(a: &Text) -> (r: Text)
    ensures
        r@ == a@,
{
    copy_range(a, 0, a.len())
}

fn copy_range(a: &Text, from: usize, to: usize) -> (r: Text)
    requires
        from <= to <= a@.len(),
    ensures
        r@ == a@.subrange(from as int, to as int),
{
    let mut r: Text = Vec::new();
    let mut i: usize = from;
    while i < to
        invariant
            from <= i <= to <= a@.len(),
            r@ =~= a@.subrange(from as int, i as int),
        decreases to - i,
    {
        r.push(a[i]);
        i = i + 1;
    }
    r
}

/// Cuts white space off both ends.
pub fn trim(s: &Text) -> (r: Text)
    ensures
        r@ == trimmed(s@),
{
    let mut a: usize = 0;
    assert(s@.skip(0) =~= s@);
    while a < s.len() && space(s[a])
        invariant
            a <= s@.len(),
            trim_front(s@) == trim_front(s@.skip(a as int)),
        decreases s@.len() - a,
    {
        assert(s@.skip(a as int).skip(1) =~= s@.skip(a + 1));
        a = a + 1;
    }
    let ghost t = s@.skip(a as int);
    assert(trim_front(s@) == t);
    let mut b: usize = s.len();
    assert(s@.subrange(a as int, b as int) =~= t);
    while b > a && space(s[b - 1])
        invariant
            a <= b <= s@.len(),
            trim_back(t) == trim_back(s@.subrange(a as int, b as int)),
        decreases b,
    {
        assert(s@.subrange(a as int, b as int).drop_last() =~= s@.subrange(a as int, b - 1));
        b = b - 1;
    }
    copy_range(s, a, b)
}

/// Cuts a text at the separators.
pub fn split_text(s: &Text, sep: char) -> (r: Vec<Text>)
    ensures
        texts(r@) == split(s@, sep),
{
    let mut out: Vec<Text> = Vec::new();
    let mut cur: Text = Vec::new();
    let mut i: usize = 0;
    assert(texts(out@) + pieces(s@, sep, 0, cur@) =~= split(s@, sep));
    while i < s.len()
        invariant
            i <= s@.len(),
            texts(out@) + pieces(s@, sep, i as int, cur@) == split(s@, sep),
        decreases s@.len() - i,
    {
        let ghost out0 = texts(out@);
        let ghost cur0 = cur@;
        let c: char = s[i];
        if c == sep {
            out.push(cur);
            assert(texts(out@) =~= out0.push(cur0));
            assert(out0 + (seq![cur0] + pieces(s@, sep, i + 1, Seq::empty()))
                =~= out0.push(cur0) + pieces(s@, sep, i + 1, Seq::empty()));
            cur = Vec::new();
        } else {
            cur.push(c);
        }
        i = i + 1;
    }
    let ghost out0 = texts(out@);
    let ghost cur0 = cur@;
    out.push(cur);
    assert(texts(out@) =~= out0.push(cur0));
    assert(out0 + seq![cur0] =~= out0.push(cur0));
    out
}

/// The drivers of one kind of device, bottom first, and the id of the devices they serve.
pub struct DeviceStackDescriptor {
    pub match_id: Text,
    pub driver_names: Vec<Text>,
}

/// A driver, where to find it, and whether the system cannot start without it.
pub struct DriverInformation {
    pub name: Text,
    pub path: Text,
    pub boot_start: bool,
}

#[verifier::ext_equal]
pub struct StackView {
    pub match_id: Seq<char>,
    pub driver_names: Seq<Seq<char>>,
}

#[verifier::ext_equal]
pub struct InfoView {
    pub name: Seq<char>,
    pub path: Seq<char>,
    pub boot_start: bool,
}

pub open spec fn stack_views(v: Seq<DeviceStackDescriptor>) -> Seq<StackView> {
    Seq::new(v.len(), |i: int| StackView { match_id: v[i].match_id@, driver_names: texts(v[i].driver_names@) })
}

pub open spec fn info_views(v: Seq<DriverInformation>) -> Seq<InfoView> {
    Seq::new(
        v.len(), |i: int| InfoView { name: v[i].name@, path: v[i].path@, boot_start: v[i].boot_start })
}

/// What a configuration has been read as so far.
#[verifier::ext_equal]
pub struct Conf {
    pub stacks: Seq<StackView>,
    pub drivers: Seq<InfoView>,
    pub cur_id: Option<Seq<char>>,
    pub cur_drivers: Seq<Seq<char>>,
    pub in_block: bool,
    pub in_description: bool,
    pub name: Option<Seq<char>>,
    pub path: Option<Seq<char>>,
    pub boot_start: bool,
}

pub open spec fn empty_conf() -> Conf {
    Conf {
        stacks: Seq::empty(),
        drivers: Seq::empty(),
        cur_id: None,
        cur_drivers: Seq::empty(),
        in_block: false,
        in_description: true,
        name: None,
        path: None,
        boot_start: false,
    }
}

/// `Root`: the id of the stacks that hang off the root device, of which there may be several.
pub open spec fn root_id() -> Seq<char> {
    seq!['R', 'o', 'o', 't']
}

pub open spec fn stack_header() -> Seq<char> {
    seq!['[', 'D', 'e', 'v', 'i', 'c', 'e', 'S', 't', 'a', 'c', 'k', ']']
}

pub open spec fn description_header() -> Seq<char> {
    seq!['[', 'd', 'e', 's', 'c', 'r', 'i', 'p', 't', 'i', 'o', 'n', ']']
}

pub open spec fn has_stack(s: Seq<StackView>, id: Seq<char>) -> bool {
    exists|i: int| 0 <= i < s.len() && (#[trigger] s[i]).match_id == id
}

pub open spec fn has_driver(s: Seq<InfoView>, name: Seq<char>) -> bool {
    exists|i: int| 0 <= i < s.len() && (#[trigger] s[i]).name == name
}

/// The end of a block: a stack with an id is recorded, a description must be complete and new. A
/// second stack for one id, other than the root's, is an error, as is a second driver of one name.
pub open spec fn end_block(c: Conf) -> Option<Conf> {
    if !c.in_block {
        Some(c)
    } else if c.in_description {
        match (c.name, c.path) {
            (Some(n), Some(p)) => if has_driver(c.drivers, n) {
                None
            } else {
                Some(Conf {
                    drivers: c.drivers.push(InfoView { name: n, path: p, boot_start: c.boot_start }),
                    name: None,
                    path: None,
                    ..c
                })
            },
            _ => None,
        }
    } else {
        match c.cur_id {
            None => Some(c),
            Some(id) => if id != root_id() && has_stack(c.stacks, id) {
                None
            } else {
                Some(Conf {
                    stacks: c.stacks.push(StackView { match_id: id, driver_names: c.cur_drivers }),
                    cur_id: None,
                    cur_drivers: Seq::empty(),
                    ..c
                })
            },
        }
    }
}

/// A line `key = value` of a description.
pub open spec fn field(c: Conf, raw: Seq<char>) -> Option<Conf> {
    let parts = split(raw, '=');
    if parts.len() != 2 {
        None
    } else {
        let key = trimmed(parts[0]);
        let value = trimmed(parts[1]);
        if key == seq!['n', 'a', 'm', 'e'] {
            Some(Conf { name: Some(value), ..c })
        } else if key == seq!['p', 'a', 't', 'h'] {
            Some(Conf { path: Some(value), ..c })
        } else if key == seq!['b', 'o', 'o', 't', '_', 's', 't', 'a', 'r', 't'] {
            if value == seq!['t', 'r', 'u', 'e'] {
                Some(Conf { boot_start: true, ..c })
            } else if value == seq!['f', 'a', 'l', 's', 'e'] {
                Some(Conf { boot_start: false, ..c })
            } else {
                None
            }
        } else {
            Some(c)
        }
    }
}

/// What one line makes of a configuration; nothing if it is an error.
pub open spec fn read_line(c: Conf, raw: Seq<char>) -> Option<Conf> {
    let line = trimmed(raw);
    if line.len() == 0 || line[0] == '#' {
        Some(c)
    } else if line == stack_header() {
        match end_block(c) {
            None => None,
            Some(d) => Some(Conf { cur_drivers: Seq::empty(), in_block: true, in_description: false, ..d }),
        }
    } else if line == description_header() {
        match end_block(c) {
            None => None,
            Some(d) => Some(Conf { in_block: true, in_description: true, boot_start: false, ..d }),
        }
    } else if !c.in_block {
        Some(c)
    } else if c.in_description {
        field(c, raw)
    } else if c.cur_id is None {
        Some(Conf { cur_id: Some(line), ..c })
    } else {
        Some(Conf { cur_drivers: c.cur_drivers.push(line), ..c })
    }
}

pub open spec fn read_lines(lines: Seq<Seq<char>>, n: nat) -> Option<Conf>
    decreases n,
{
    if n == 0 {
        Some(empty_conf())
    } else {
        match read_lines(lines, (n - 1) as nat) {
            None => None,
            Some(c) => read_line(c, lines[n - 1]),
        }
    }
}

/// What a configuration text says; nothing if it is malformed.
pub open spec fn config_of(text: Seq<char>) -> Option<Conf> {
    let lines = split(text, '\n');
    match read_lines(lines, lines.len()) {
        None => None,
        Some(c) => end_block(c),
    }
}

fn is_word(t: &Text, w: &[char]) -> (r: bool)
    ensures
        r == (t@ == w@),
{
    if t.len() != w.len() {
        return false;
    }
    let mut i: usize = 0;
    while i < t.len()
        invariant
            i <= t@.len(),
            t@.len() == w@.len(),
            forall|j: int| 0 <= j < i ==> t@[j] == w@[j],
        decreases t@.len() - i,
    {
        if t[i] != w[i] {
            assert(t@[i as int] != w@[i as int]);
            return false;
        }
        i = i + 1;
    }
    assert(t@ =~= w@);
    true
}

/// A configuration being read.
struct Parser {
    stacks: Vec<DeviceStackDescriptor>,
    drivers: Vec<DriverInformation>,
    cur_id: Option<Text>,
    cur_drivers: Vec<Text>,
    in_block: bool,
    in_description: bool,
    name: Option<Text>,
    path: Option<Text>,
    boot_start: bool,
}

spec fn opt_text(o: Option<Text>) -> Option<Seq<char>> {
    match o { Some(t) => Some(t@), None => None }
}

impl Parser {
    spec fn conf(self) -> Conf {
        Conf {
            stacks: stack_views(self.stacks@),
            drivers: info_views(self.drivers@),
            cur_id: opt_text(self.cur_id),
            cur_drivers: texts(self.cur_drivers@),
            in_block: self.in_block,
            in_description: self.in_description,
            name: opt_text(self.name),
            path: opt_text(self.path),
            boot_start: self.boot_start,
        }
    }

    fn knows_driver(&self, name: &Text) -> (r: bool)
        ensures
            r == has_driver(info_views(self.drivers@), name@),
    {
        let ghost v = info_views(self.drivers@);
        let mut i: usize = 0;
        while i < self.drivers.len()
            invariant
                i <= self.drivers@.len(),
                v == info_views(self.drivers@),
                forall|j: int| 0 <= j < i ==> (#[trigger] v[j]).name != name@,
            decreases self.drivers@.len() - i,
        {
            if text_eq(&self.drivers[i].name, name) {
                assert(v[i as int].name == name@);
                return true;
            }
            i = i + 1;
        }
        false
    }

    fn knows_stack(&self, id: &Text) -> (r: bool)
        ensures
            r == has_stack(stack_views(self.stacks@), id@),
    {
        let ghost v = stack_views(self.stacks@);
        let mut i: usize = 0;
        while i < self.stacks.len()
            invariant
                i <= self.stacks@.len(),
                v == stack_views(self.stacks@),
                forall|j: int| 0 <= j < i ==> (#[trigger] v[j]).match_id != id@,
            decreases self.stacks@.len() - i,
        {
            if text_eq(&self.stacks[i].match_id, id) {
                assert(v[i as int].match_id == id@);
                return true;
            }
            i = i + 1;
        }
        false
    }

    /// Records the block read last; false if it is in error.
    fn end_block(&mut self) -> (r: bool)
        ensures
            match end_block(old(self).conf()) {
                Some(c) => r && final(self).conf() == c,
                None => !r,
            },
    {
        let ghost c0 = self.conf();
        if !self.in_block {
            return true;
        }
        if self.in_description {
            match (self.name.take(), self.path.take()) {
                (Some(n), Some(p)) => {
                    if self.knows_driver(&n) {
                        return false;
                    }
                    self.drivers.push(DriverInformation { name: n, path: p, boot_start: self.boot_start });
                    assert(self.conf().drivers =~= c0.drivers.push(
                        InfoView { name: n@, path: p@, boot_start: c0.boot_start }));
                    true
                },
                _ => false,
            }
        } else {
            match self.cur_id.take() {
                None => true,
                Some(id) => {
                    let root: bool = is_word(&id, &['R', 'o', 'o', 't']);
                    assert(['R', 'o', 'o', 't']@ =~= root_id());
                    if !root && self.knows_stack(&id) {
                        return false;
                    }
                    let mut names: Vec<Text> = Vec::new();
                    names.append(&mut self.cur_drivers);
                    assert(texts(names@) =~= c0.cur_drivers);
                    self.stacks.push(DeviceStackDescriptor { match_id: id, driver_names: names });
                    assert(self.conf().stacks =~= c0.stacks.push(
                        StackView { match_id: id@, driver_names: c0.cur_drivers }));
                    assert(self.conf().cur_drivers =~= Seq::empty());
                    true
                },
            }
        }
    }

    fn field(&mut self, raw: &Text) -> (r: bool)
        ensures
            match field(old(self).conf(), raw@) {
                Some(c) => r && final(self).conf() == c,
                None => !r,
            },
    {
        let parts: Vec<Text> = split_text(raw, '=');
        assert(texts(parts@).len() == parts@.len());
        if parts.len() != 2 {
            return false;
        }
        assert(texts(parts@)[0] == parts@[0]@);
        assert(texts(parts@)[1] == parts@[1]@);
        let key: Text = trim(&parts[0]);
        let value: Text = trim(&parts[1]);
        assert(['n', 'a', 'm', 'e']@ =~= seq!['n', 'a', 'm', 'e']);
        assert(['p', 'a', 't', 'h']@ =~= seq!['p', 'a', 't', 'h']);
        assert(['b', 'o', 'o', 't', '_', 's', 't', 'a', 'r', 't']@
            =~= seq!['b', 'o', 'o', 't', '_', 's', 't', 'a', 'r', 't']);
        assert(['t', 'r', 'u', 'e']@ =~= seq!['t', 'r', 'u', 'e']);
        assert(['f', 'a', 'l', 's', 'e']@ =~= seq!['f', 'a', 'l', 's', 'e']);
        if is_word(&key, &['n', 'a', 'm', 'e']) {
            self.name = Some(value);
            true
        } else if is_word(&key, &['p', 'a', 't', 'h']) {
            self.path = Some(value);
            true
        } else if is_word(&key, &['b', 'o', 'o', 't', '_', 's', 't', 'a', 'r', 't']) {
            if is_word(&value, &['t', 'r', 'u', 'e']) {
                self.boot_start = true;
                true
            } else if is_word(&value, &['f', 'a', 'l', 's', 'e']) {
                self.boot_start = false;
                true
            } else {
                false
            }
        } else {
            true
        }
    }

    fn read_line(&mut self, raw: &Text) -> (r: bool)
        ensures
            match read_line(old(self).conf(), raw@) {
                Some(c) => r && final(self).conf() == c,
                None => !r,
            },
    {
        let ghost c0 = self.conf();
        let line: Text = trim(raw);
        if line.len() == 0 || line[0] == '#' {
            return true;
        }
        assert(['[', 'D', 'e', 'v', 'i', 'c', 'e', 'S', 't', 'a', 'c', 'k', ']']@ =~= stack_header());
        assert(['[', 'd', 'e', 's', 'c', 'r', 'i', 'p', 't', 'i', 'o', 'n', ']']@ =~= description_header());
        if is_word(&line, &['[', 'D', 'e', 'v', 'i', 'c', 'e', 'S', 't', 'a', 'c', 'k', ']']) {
            if !self.end_block() {
                return false;
            }
            self.cur_drivers = Vec::new();
            assert(self.conf().cur_drivers =~= Seq::empty());
            self.in_block = true;
            self.in_description = false;
            return true;
        }
        if is_word(&line, &['[', 'd', 'e', 's', 'c', 'r', 'i', 'p', 't', 'i', 'o', 'n', ']']) {
            if !self.end_block() {
                return false;
            }
            self.in_block = true;
            self.in_description = true;
            self.boot_start = false;
            return true;
        }
        if !self.in_block {
            return true;
        }
        if self.in_description {
            return self.field(raw);
        }
        if self.cur_id.is_none() {
            self.cur_id = Some(line);
        } else {
            self.cur_drivers.push(line);
            assert(self.conf().cur_drivers =~= c0.cur_drivers.push(line@));
        }
        true
    }
}

/// The device stacks and the drivers of a configuration.
pub struct BootConfig {
    pub stacks: Vec<DeviceStackDescriptor>,
    pub drivers: Vec<DriverInformation>,
}

/// Reads a configuration text; nothing if it is malformed.
pub fn try_parse(text: &Text) -> (r: Option<BootConfig>)
    ensures
        match config_of(text@) {
            Some(c) => r is Some && stack_views(r->0.stacks@) == c.stacks && info_views(r->0.drivers@) == c.drivers,
            None => r is None,
        },
{
    let lines: Vec<Text> = split_text(text, '\n');
    let mut p: Parser = Parser {
        stacks: Vec::new(),
        drivers: Vec::new(),
        cur_id: None,
        cur_drivers: Vec::new(),
        in_block: false,
        in_description: true,
        name: None,
        path: None,
        boot_start: false,
    };
    let ghost ls = split(text@, '\n');
    let mut i: usize = 0;
    assert(p.conf() =~~= empty_conf());
    while i < lines.len()
        invariant
            i <= lines@.len(),
            ls == texts(lines@),
            ls == split(text@, '\n'),
            read_lines(ls, i as nat) == Some(p.conf()),
        decreases lines@.len() - i,
    {
        assert(ls[i as int] == lines@[i as int]@);
        if !p.read_line(&lines[i]) {
            proof {
                lemma_error_stays(ls, (i + 1) as nat, ls.len());
            }
            return None;
        }
        i = i + 1;
    }
    if !p.end_block() {
        return None;
    }
    Some(BootConfig { stacks: p.stacks, drivers: p.drivers })
}

proof fn lemma_error_stays(lines: Seq<Seq<char>>, i: nat, n: nat)
    requires
        i <= n,
        read_lines(lines, i) is None,
    ensures
        read_lines(lines, n) is None,
    decreases n,
{
    if i < n {
        lemma_error_stays(lines, i, (n - 1) as nat);
    }
}

/// Reads a well-formed configuration text.
pub fn parse(text: &Text) -> (r: BootConfig)
    requires
        config_of(text@) is Some,
    ensures
        stack_views(r.stacks@) == config_of(text@)->0.stacks,
        info_views(r.drivers@) == config_of(text@)->0.drivers,
{
    match try_parse(text) {
        Some(c) => c,
        None => BootConfig { stacks: Vec::new(), drivers: Vec::new() },
    }
}

/// No two device stacks of a configuration serve one id, except those of the root device.
pub open spec fn stacks_distinct(s: Seq<StackView>) -> bool {
    forall|i: int, j: int| 0 <= i < j < s.len() && (#[trigger] s[i]).match_id == (#[trigger] s[j]).match_id
        ==> s[i].match_id == root_id()
}

/// No two drivers of a configuration have one name.
pub open spec fn drivers_distinct(s: Seq<InfoView>) -> bool {
    forall|i: int, j: int| 0 <= i < j < s.len() ==> (#[trigger] s[i]).name != (#[trigger] s[j]).name
}

proof fn lemma_end_block_distinct(c: Conf)
    requires
        stacks_distinct(c.stacks),
        drivers_distinct(c.drivers),
    ensures
        end_block(c) matches Some(d) ==> stacks_distinct(d.stacks) && drivers_distinct(d.drivers),
{
    if let Some(d) = end_block(c) {
        assert forall|i: int, j: int| 0 <= i < j < d.stacks.len() && (#[trigger] d.stacks[i]).match_id
            == (#[trigger] d.stacks[j]).match_id implies d.stacks[i].match_id == root_id() by {
            if j == c.stacks.len() {
                assert(d.stacks[i] == c.stacks[i]);
            }
        }
        assert forall|i: int, j: int| 0 <= i < j < d.drivers.len() implies (#[trigger] d.drivers[i]).name
            != (#[trigger] d.drivers[j]).name by {
            if j == c.drivers.len() {
                assert(d.drivers[i] == c.drivers[i]);
            }
        }
    }
}

proof fn lemma_lines_distinct(lines: Seq<Seq<char>>, n: nat)
    ensures
        read_lines(lines, n) matches Some(c) ==> stacks_distinct(c.stacks) && drivers_distinct(c.drivers),
    decreases n,
{
    if n > 0 {
        lemma_lines_distinct(lines, (n - 1) as nat);
        if let Some(c) = read_lines(lines, (n - 1) as nat) {
            lemma_end_block_distinct(c);
        }
    }
}

/// A configuration that is accepted has one stack per device id, the root's aside, and one driver
/// per name.
pub proof fn law_config_distinct(text: Seq<char>)
    requires
        config_of(text) is Some,
    ensures
        stacks_distinct(config_of(text)->0.stacks),
        drivers_distinct(config_of(text)->0.drivers),
{
    let lines = split(text, '\n');
    lemma_lines_distinct(lines, lines.len());
    lemma_end_block_distinct(read_lines(lines, lines.len())->0);
}

/// The path of the first driver from `i` on with the name.
pub open spec fn path_of(s: Seq<InfoView>, i: int, name: Seq<char>) -> Option<Seq<char>>
    decreases s.len() - i,
{
    if i < 0 || i >= s.len() {
        None
    } else if s[i].name == name {
        Some(s[i].path)
    } else {
        path_of(s, i + 1, name)
    }
}

/// The index of the first stack from `i` on for the id.
pub open spec fn stack_for(s: Seq<StackView>, i: int, id: Seq<char>) -> Option<int>
    decreases s.len() - i,
{
    if i < 0 || i >= s.len() {
        None
    } else if s[i].match_id == id {
        Some(i)
    } else {
        stack_for(s, i + 1, id)
    }
}

/// Which of the first `n` drivers are started with the system.
pub open spec fn boot_started(s: Seq<DriverInformation>, n: nat) -> Seq<usize>
    decreases n,
{
    if n == 0 {
        Seq::empty()
    } else if s[n - 1].boot_start {
        boot_started(s, (n - 1) as nat).push((n - 1) as usize)
    } else {
        boot_started(s, (n - 1) as nat)
    }
}

impl BootConfig {
    /// Where a driver is to be found.
    pub fn get_driver_path(&self, name: &Text) -> (r: Option<Text>)
        ensures
            match path_of(info_views(self.drivers@), 0, name@) {
                Some(p) => r is Some && r->0@ == p,
                None => r is None,
            },
    {
        let ghost v = info_views(self.drivers@);
        let mut i: usize = 0;
        while i < self.drivers.len()
            invariant
                i <= self.drivers@.len(),
                v == info_views(self.drivers@),
                path_of(v, 0, name@) == path_of(v, i as int, name@),
            decreases self.drivers@.len() - i,
        {
            if text_eq(&self.drivers[i].name, name) {
                return Some(text_copy(&self.drivers[i].path));
            }
            i = i + 1;
        }
        None
    }

    /// The stack that serves a device id.
    pub fn find_descriptor(&self, id: &Text) -> (r: Option<usize>)
        ensures
            match r {
                Some(k) => stack_for(stack_views(self.stacks@), 0, id@) == Some(k as int) && k < self.stacks@.len(),
                None => stack_for(stack_views(self.stacks@), 0, id@) is None,
            },
    {
        let ghost v = stack_views(self.stacks@);
        let mut i: usize = 0;
        while i < self.stacks.len()
            invariant
                i <= self.stacks@.len(),
                v == stack_views(self.stacks@),
                stack_for(v, 0, id@) == stack_for(v, i as int, id@),
            decreases self.stacks@.len() - i,
        {
            if text_eq(&self.stacks[i].match_id, id) {
                return Some(i);
            }
            i = i + 1;
        }
        None
    }

    /// The drivers that have to be there for the system to start, in order.
    pub fn boot_drivers(&self) -> (r: Vec<usize>)
        ensures
            r@ == boot_started(self.drivers@, self.drivers@.len()),
    {
        let mut r: Vec<usize> = Vec::new();
        let mut i: usize = 0;
        while i < self.drivers.len()
            invariant
                i <= self.drivers@.len(),
                r@ == boot_started(self.drivers@, i as nat),
            decreases self.drivers@.len() - i,
        {
            if self.drivers[i].boot_start {
                r.push(i);
            }
            i = i + 1;
        }
        r
    }

    /// These are the stacks for the root device, all of them and in order.
    pub open spec fn are_roots(self, r: Seq<usize>) -> bool {
        &&& r.len() <= self.stacks@.len()
        &&& forall|k: int| 0 <= k < self.stacks@.len() ==> (
            r.contains(k as usize) <==> (#[trigger] self.stacks@[k]).match_id@ == root_id())
        &&& forall|a: int, b: int| 0 <= a < b < r.len() ==> r[a] < r[b]
        &&& forall|a: int| 0 <= a < r.len() ==> #[trigger] r[a] < self.stacks@.len()
    }

    /// The stacks that hang off the root device, in order.
    pub fn root_stacks(&self) -> (r: Vec<usize>)
        ensures
            self.are_roots(r@),
    {
        let mut r: Vec<usize> = Vec::new();
        let mut i: usize = 0;
        while i < self.stacks.len()
            invariant
                i <= self.stacks@.len(),
                r@.len() <= i,
                forall|k: int| 0 <= k < i ==> (
                    r@.contains(k as usize) <==> (#[trigger] self.stacks@[k]).match_id@ == root_id()),
                forall|a: int, b: int| 0 <= a < b < r@.len() ==> r@[a] < r@[b],
                forall|a: int| 0 <= a < r@.len() ==> #[trigger] r@[a] < i,
            decreases self.stacks@.len() - i,
        {
            assert(['R', 'o', 'o', 't']@ =~= root_id());
            let ghost r0 = r@;
            if is_word(&self.stacks[i].match_id, &['R', 'o', 'o', 't']) {
                r.push(i);
                proof {
                    assert(r@[r0.len() as int] == i);
                    assert forall|k: int| 0 <= k < i + 1 implies (
                        r@.contains(k as usize) <==> (#[trigger] self.stacks@[k]).match_id@ == root_id()) by {
                        if k < i {
                            assert(r0.contains(k as usize) <==> r@.contains(k as usize)) by {
                                if r0.contains(k as usize) {
                                    let x = choose|x: int| 0 <= x < r0.len() && r0[x] == k as usize;
                                    assert(r@[x] == k as usize);
                                }
                                if r@.contains(k as usize) {
                                    let x = choose|x: int| 0 <= x < r@.len() && r@[x] == k as usize;
                                    assert(r0[x] == k as usize);
                                }
                            }
                        }
                    }
                }
            } else {
                assert(!r@.contains(i)) by {
                    if r@.contains(i) {
                        let x = choose|x: int| 0 <= x < r@.len() && r@[x] == i;
                        assert(r@[x] < i);
                    }
                }
            }
            i = i + 1;
        }
        r
    }
}

} // verus!
