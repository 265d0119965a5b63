use vstd::prelude::*;
use vstd::string::StringExecFns;
use crate::text::string_from_chars;

verus! {

/// Platform-specific attribute flags of one filesystem entry.
///
/// On POSIX systems everything here stays false unless the caller fills it
/// in; on Windows the flags mirror the file attributes.
#[derive(Debug, Clone, PartialEq, Eq, Structural)]
pub struct Attributes {
    pub archivable: bool,
    pub readonly: bool,
    pub hidden: bool,
    pub system: bool,
    pub executable: bool,
}

impl Attributes {
    /// The cleared attribute record.
    pub open spec fn spec_default() -> Attributes {
        Attributes { archivable: false, readonly: false, hidden: false, system: false, executable: false }
    }
}

impl Default for Attributes {
    /// All flags cleared.
    fn default() -> (r: Self)
        ensures
            r == Attributes::spec_default(),
    {
        Attributes { archivable: false, readonly: false, hidden: false, system: false, executable: false }
    }
}

/// A set of the three POSIX access rights, packed as the usual three bits:
/// read is 4, write is 2, execute is 1.
#[derive(Debug, Clone, Copy, PartialEq, Eq, Structural)]
pub struct AccessRights {
    bits: u8,
}

impl AccessRights {
    pub closed spec fn spec_bits(&self) -> u8 {
        self.bits
    }

    pub closed spec fn spec_readable(&self) -> bool {
        self.bits & 4 != 0
    }

    pub closed spec fn spec_writable(&self) -> bool {
        self.bits & 2 != 0
    }

    pub closed spec fn spec_executable(&self) -> bool {
        self.bits & 1 != 0
    }

    /// The rights encoded by the low three bits of `bits`.
    pub fn from_bits(bits: u8) -> (r: Self)
        ensures
            r.spec_bits() == bits & 7,
    {
        AccessRights { bits: bits & 7 }
    }

    /// The set holding exactly the rights that are passed as true.
    pub fn new(read: bool, write: bool, execute: bool) -> (r: Self)
        ensures
            r.spec_readable() == read,
            r.spec_writable() == write,
            r.spec_executable() == execute,
    {
        let r8: u8 = if read { 1 } else { 0 };
        let w8: u8 = if write { 1 } else { 0 };
        let x8: u8 = if execute { 1 } else { 0 };
        let bits: u8 = r8 * 4 + w8 * 2 + x8;
        proof {
            assert((bits & 4 != 0) == (r8 == 1) && (bits & 2 != 0) == (w8 == 1) && (bits & 1 != 0)
                == (x8 == 1)) by (bit_vector)
                requires
                    r8 <= 1,
                    w8 <= 1,
                    x8 <= 1,
                    bits == r8 * 4 + w8 * 2 + x8,
            ;
        }
        AccessRights { bits }
    }

    pub fn readable(&self) -> (r: bool)
        ensures
            r == self.spec_readable(),
    {
        self.bits & 4 != 0
    }

    pub fn writable(&self) -> (r: bool)
        ensures
            r == self.spec_writable(),
    {
        self.bits & 2 != 0
    }

    pub fn executable(&self) -> (r: bool)
        ensures
            r == self.spec_executable(),
    {
        self.bits & 1 != 0
    }

    /// The `rwx` triplet of this set, with `-` for each absent right.
    pub open spec fn spec_triplet(&self) -> Seq<char> {
        seq![
            if self.spec_readable() { 'r' } else { '-' },
            if self.spec_writable() { 'w' } else { '-' },
            if self.spec_executable() { 'x' } else { '-' },
        ]
    }

    /// Renders the triplet, `rwx` style.
    pub fn mode_string(&self) -> (r: String)
        ensures
            r@ == self.spec_triplet(),
    {
        let mut cs: Vec<char> = Vec::new();
        cs.push(mode_char(self.readable(), 'r'));
        cs.push(mode_char(self.writable(), 'w'));
        cs.push(mode_char(self.executable(), 'x'));
        proof {
            assert(cs@ =~= self.spec_triplet());
        }
        string_from_chars(&cs)
    }
}

/// How the three right flags sit in the packed bits: read is bit 2,
/// write is bit 1, execute is bit 0.
pub proof fn lemma_access_bits(r: AccessRights)
    ensures
        r.spec_readable() == (r.spec_bits() & 4 != 0),
        r.spec_writable() == (r.spec_bits() & 2 != 0),
        r.spec_executable() == (r.spec_bits() & 1 != 0),
{
}

impl Default for AccessRights {
    /// No rights at all.
    fn default() -> (r: Self)
        ensures
            r.spec_bits() == 0,
    {
        AccessRights { bits: 0 }
    }
}

/// Either the flag's own character or a dash, as permission listings do.
pub fn mode_char(flag: bool, mode: char) -> (c: char)
    ensures
        c == (if flag { mode } else { '-' }),
{
    if flag {
        mode
    } else {
        '-'
    }
}

/// The owning user of an entry, with the rights it holds on it.
#[derive(Debug, Clone, PartialEq, Eq)]
pub struct User {
    pub domain: String,
    pub name: String,
    pub permissions: AccessRights,
}

impl User {
    pub fn readable(&self) -> (r: bool)
        ensures
            r == self.permissions.spec_readable(),
    {
        self.permissions.readable()
    }

    pub fn writable(&self) -> (r: bool)
        ensures
            r == self.permissions.spec_writable(),
    {
        self.permissions.writable()
    }

    pub fn executable(&self) -> (r: bool)
        ensures
            r == self.permissions.spec_executable(),
    {
        self.permissions.executable()
    }
}

impl Default for User {
    /// An anonymous user with no rights.
    fn default() -> (r: Self)
        ensures
            r.domain@ == Seq::<char>::empty(),
            r.name@ == Seq::<char>::empty(),
            r.permissions.spec_bits() == 0,
    {
        User { domain: String::new(), name: String::new(), permissions: AccessRights { bits: 0 } }
    }
}

/// A group principal, with the rights it holds on an entry.
#[derive(Debug, Clone, PartialEq, Eq)]
pub struct Group {
    pub domain: String,
    pub name: String,
    pub permissions: AccessRights,
}

impl Group {
    /// A group with the given domain, name and rights.
    pub fn new(domain: &str, name: &str, permissions: AccessRights) -> (r: Self)
        ensures
            r.domain@ == domain@,
            r.name@ == name@,
            r.permissions == permissions,
    {
        Group { domain: String::from_str(domain), name: String::from_str(name), permissions }
    }

    pub fn readable(&self) -> (r: bool)
        ensures
            r == self.permissions.spec_readable(),
    {
        self.permissions.readable()
    }

    pub fn writable(&self) -> (r: bool)
        ensures
            r == self.permissions.spec_writable(),
    {
        self.permissions.writable()
    }

    pub fn executable(&self) -> (r: bool)
        ensures
            r == self.permissions.spec_executable(),
    {
        self.permissions.executable()
    }
}

impl Default for Group {
    /// An anonymous group with no rights.
    fn default() -> (r: Self)
        ensures
            r.domain@ == Seq::<char>::empty(),
            r.name@ == Seq::<char>::empty(),
            r.permissions.spec_bits() == 0,
    {
        Group { domain: String::new(), name: String::new(), permissions: AccessRights { bits: 0 } }
    }
}

/// The permission record of one entry: the user, group and everyone
/// principals with their rights, and the platform attribute flags.
#[derive(Debug, Clone, PartialEq, Eq)]
pub struct Perms {
    user: User,
    group: Group,
    everyone: Group,
    attributes: Attributes,
}

impl Perms {
    pub closed spec fn spec_user(&self) -> User {
        self.user
    }

    pub closed spec fn spec_group(&self) -> Group {
        self.group
    }

    pub closed spec fn spec_everyone(&self) -> Group {
        self.everyone
    }

    pub closed spec fn spec_attributes(&self) -> Attributes {
        self.attributes
    }

    /// A record assembled from its four parts.
    pub fn new(user: User, group: Group, everyone: Group, attributes: Attributes) -> (r: Self)
        ensures
            r.spec_user() == user,
            r.spec_group() == group,
            r.spec_everyone() == everyone,
            r.spec_attributes() == attributes,
    {
        Perms { user, group, everyone, attributes }
    }

    /// The record that a POSIX mode word describes: bits 6 to 8 for the
    /// user, 3 to 5 for the group, 0 to 2 for everyone.
    pub fn from_mode(mode: u32, user_name: &str, group_name: &str) -> (r: Self)
        ensures
            r.spec_user().permissions.spec_bits() == (mode >> 6) as u8 & 7,
            r.spec_group().permissions.spec_bits() == (mode >> 3) as u8 & 7,
            r.spec_everyone().permissions.spec_bits() == mode as u8 & 7,
            r.spec_user().name@ == user_name@,
            r.spec_group().name@ == group_name@,
            r.spec_everyone().name@ == "Everyone"@,
            r.spec_attributes() == Attributes::spec_default(),
    {
        let user_rights = AccessRights::from_bits((mode >> 6) as u8);
        let group_rights = AccessRights::from_bits((mode >> 3) as u8);
        let everyone_rights = AccessRights::from_bits(mode as u8);
        Perms {
            user: User {
                domain: String::new(),
                name: String::from_str(user_name),
                permissions: user_rights,
            },
            group: Group::new("", group_name, group_rights),
            everyone: Group::new("", "Everyone", everyone_rights),
            attributes: Attributes::default(),
        }
    }

    pub fn is_hidden(&self) -> (r: bool)
        ensures
            r == self.spec_attributes().hidden,
    {
        self.attributes.hidden
    }

    pub fn user(&self) -> (r: &User)
        ensures
            *r == self.spec_user(),
    {
        &self.user
    }

    pub fn group(&self) -> (r: &Group)
        ensures
            *r == self.spec_group(),
    {
        &self.group
    }

    pub fn everyone(&self) -> (r: &Group)
        ensures
            *r == self.spec_everyone(),
    {
        &self.everyone
    }

    pub fn attributes(&self) -> (r: &Attributes)
        ensures
            *r == self.spec_attributes(),
    {
        &self.attributes
    }

    /// True when any of the three principals holds the execute right, or
    /// the platform attributes mark the entry executable.
    pub open spec fn spec_any_executable(&self) -> bool {
        self.spec_user().permissions.spec_executable() || self.spec_group().permissions.spec_executable()
            || self.spec_everyone().permissions.spec_executable() || self.spec_attributes().executable
    }

    pub fn any_executable(&self) -> (r: bool)
        ensures
            r == self.spec_any_executable(),
    {
        self.user.permissions.executable() || self.group.permissions.executable()
            || self.everyone.permissions.executable() || self.attributes.executable
    }

    /// The nine permission characters: the `rwx` triplets of user, group
    /// and everyone, in that order.
    pub open spec fn spec_mode_string(&self) -> Seq<char> {
        self.spec_user().permissions.spec_triplet() + self.spec_group().permissions.spec_triplet()
            + self.spec_everyone().permissions.spec_triplet()
    }

    /// Renders the nine permission characters.
    pub fn mode_string(&self) -> (r: String)
        ensures
            r@ == self.spec_mode_string(),
    {
        let mut s = self.user.permissions.mode_string();
        let g = self.group.permissions.mode_string();
        let e = self.everyone.permissions.mode_string();
        s.append(g.as_str());
        s.append(e.as_str());
        s
    }
}

impl Default for Perms {
    /// An empty record: anonymous principals without rights, no flags set.
    fn default() -> (r: Self)
        ensures
            r.spec_user().permissions.spec_bits() == 0,
            r.spec_group().permissions.spec_bits() == 0,
            r.spec_everyone().permissions.spec_bits() == 0,
            r.spec_attributes() == Attributes::spec_default(),
    {
        Perms {
            user: User::default(),
            group: Group::default(),
            everyone: Group::default(),
            attributes: Attributes::default(),
        }
    }
}

/// What kind of principal a platform security identifier names.
#[derive(Debug, Clone, Copy, PartialEq, Eq, Structural)]
pub enum SidType {
    User,
    Group,
    Domain,
    Alias,
    WellKnownGroup,
    DeletedAccount,
    Invalid,
    Unknown,
    Computer,
    Label,
    LogonSession,
}

impl SidType {
    /// The principal kind that a platform identifier-use code names, or
    /// `None` for a code outside the documented range.
    pub fn from_code(code: u32) -> (r: Option<SidType>)
        ensures
            r == (if code == 1 {
                Some(SidType::User)
            } else if code == 2 {
                Some(SidType::Group)
            } else if code == 3 {
                Some(SidType::Domain)
            } else if code == 4 {
                Some(SidType::Alias)
            } else if code == 5 {
                Some(SidType::WellKnownGroup)
            } else if code == 6 {
                Some(SidType::DeletedAccount)
            } else if code == 7 {
                Some(SidType::Invalid)
            } else if code == 8 {
                Some(SidType::Unknown)
            } else if code == 9 {
                Some(SidType::Computer)
            } else if code == 10 {
                Some(SidType::Label)
            } else if code == 11 {
                Some(SidType::LogonSession)
            } else {
                None::<SidType>
            }),
    {
        match code {
            1 => Some(SidType::User),
            2 => Some(SidType::Group),
            3 => Some(SidType::Domain),
            4 => Some(SidType::Alias),
            5 => Some(SidType::WellKnownGroup),
            6 => Some(SidType::DeletedAccount),
            7 => Some(SidType::Invalid),
            8 => Some(SidType::Unknown),
            9 => Some(SidType::Computer),
            10 => Some(SidType::Label),
            11 => Some(SidType::LogonSession),
            _ => None,
        }
    }
}

} // verus!
