//! The fixed set of metadata fields this library understands.
use vstd::prelude::*;

verus! {

/// A recognized metadata field. `Title` lives in the container's header;
/// every other field lives in the tag tree.
#[derive(Clone, Copy, Debug, PartialEq, Eq, Structural)]
pub enum Field {
    Title,
    Comment,
    Artist,
    Album,
    Date,
    Description,
    Synopsis,
    Purl,
    PartNumber,
    TotalParts,
}

/// Number of recognized fields.
pub const FIELD_COUNT: usize = 10;

/// Position of a field in the canonical order (header fields, then tag fields).
pub open spec fn field_index(f: Field) -> nat {
    match f {
        Field::Title => 0,
        Field::Comment => 1,
        Field::Artist => 2,
        Field::Album => 3,
        Field::Date => 4,
        Field::Description => 5,
        Field::Synopsis => 6,
        Field::Purl => 7,
        Field::PartNumber => 8,
        Field::TotalParts => 9,
    }
}

/// The field at a canonical position.
pub open spec fn field_at(i: nat) -> Field
    recommends
        i < 10,
{
    if i == 0 {
        Field::Title
    } else if i == 1 {
        Field::Comment
    } else if i == 2 {
        Field::Artist
    } else if i == 3 {
        Field::Album
    } else if i == 4 {
        Field::Date
    } else if i == 5 {
        Field::Description
    } else if i == 6 {
        Field::Synopsis
    } else if i == 7 {
        Field::Purl
    } else if i == 8 {
        Field::PartNumber
    } else {
        Field::TotalParts
    }
}

/// Whether a field belongs to the container header rather than the tag tree.
pub open spec fn is_header_field(f: Field) -> bool {
    f == Field::Title
}

/// The name under which a field appears in text and in the tag tree.
pub open spec fn field_name(f: Field) -> Seq<char> {
    match f {
        Field::Title => seq!['t', 'i', 't', 'l', 'e'],
        Field::Comment => seq!['C', 'O', 'M', 'M', 'E', 'N', 'T'],
        Field::Artist => seq!['A', 'R', 'T', 'I', 'S', 'T'],
        Field::Album => seq!['A', 'L', 'B', 'U', 'M'],
        Field::Date => seq!['D', 'A', 'T', 'E'],
        Field::Description => seq!['D', 'E', 'S', 'C', 'R', 'I', 'P', 'T', 'I', 'O', 'N'],
        Field::Synopsis => seq!['S', 'Y', 'N', 'O', 'P', 'S', 'I', 'S'],
        Field::Purl => seq!['P', 'U', 'R', 'L'],
        Field::PartNumber => seq!['P', 'A', 'R', 'T', '_', 'N', 'U', 'M', 'B', 'E', 'R'],
        Field::TotalParts => seq!['T', 'O', 'T', 'A', 'L', '_', 'P', 'A', 'R', 'T', 'S'],
    }
}

/// The field a name denotes, if it is recognized.
pub open spec fn field_named(s: Seq<char>) -> Option<Field> {
    if s == field_name(Field::Title) {
        Some(Field::Title)
    } else if s == field_name(Field::Comment) {
        Some(Field::Comment)
    } else if s == field_name(Field::Artist) {
        Some(Field::Artist)
    } else if s == field_name(Field::Album) {
        Some(Field::Album)
    } else if s == field_name(Field::Date) {
        Some(Field::Date)
    } else if s == field_name(Field::Description) {
        Some(Field::Description)
    } else if s == field_name(Field::Synopsis) {
        Some(Field::Synopsis)
    } else if s == field_name(Field::Purl) {
        Some(Field::Purl)
    } else if s == field_name(Field::PartNumber) {
        Some(Field::PartNumber)
    } else if s == field_name(Field::TotalParts) {
        Some(Field::TotalParts)
    } else {
        None
    }
}

/// Each field's name leads back to that field: the names are pairwise distinct.
pub proof fn lemma_field_named_inverse(f: Field)
    ensures
        field_named(field_name(f)) == Some(f),
{
    let n = field_name(f);
    assert(field_name(Field::Title)[0] == 't');
    assert(field_name(Field::Comment)[0] == 'C');
    assert(field_name(Field::Artist)[0] == 'A');
    assert(field_name(Field::Album)[0] == 'A');
    assert(field_name(Field::Album)[1] == 'L');
    assert(field_name(Field::Artist)[1] == 'R');
    assert(field_name(Field::Date)[0] == 'D');
    assert(field_name(Field::Description)[0] == 'D');
    assert(field_name(Field::Synopsis)[0] == 'S');
    assert(field_name(Field::Purl)[0] == 'P');
    assert(field_name(Field::PartNumber)[0] == 'P');
    assert(field_name(Field::TotalParts)[0] == 'T');
    assert(field_name(Field::PartNumber)[1] == 'A');
    assert(field_name(Field::Purl)[1] == 'U');
}

/// `field_at` and `field_index` are inverse.
pub proof fn lemma_field_index(f: Field)
    ensures
        field_index(f) < 10,
        field_at(field_index(f)) == f,
{
}

impl Field {
    /// Canonical position of this field.
    pub fn index(&self) -> (r: usize)
        ensures
            r as nat == field_index(*self),
            r < FIELD_COUNT,
    {
        match self {
            Field::Title => 0,
            Field::Comment => 1,
            Field::Artist => 2,
            Field::Album => 3,
            Field::Date => 4,
            Field::Description => 5,
            Field::Synopsis => 6,
            Field::Purl => 7,
            Field::PartNumber => 8,
            Field::TotalParts => 9,
        }
    }

    /// The field at a canonical position.
    pub fn from_index(i: usize) -> (r: Field)
        requires
            i < FIELD_COUNT,
        ensures
            r == field_at(i as nat),
            field_index(r) == i,
    {
        if i == 0 {
            Field::Title
        } else if i == 1 {
            Field::Comment
        } else if i == 2 {
            Field::Artist
        } else if i == 3 {
            Field::Album
        } else if i == 4 {
            Field::Date
        } else if i == 5 {
            Field::Description
        } else if i == 6 {
            Field::Synopsis
        } else if i == 7 {
            Field::Purl
        } else if i == 8 {
            Field::PartNumber
        } else {
            Field::TotalParts
        }
    }

    /// Whether this field is stored in the container header.
    pub fn is_header(&self) -> (r: bool)
        ensures
            r == is_header_field(*self),
    {
        match self {
            Field::Title => true,
            _ => false,
        }
    }

    /// The field's name as written in text and in the tag tree.
    pub fn name(&self) -> (r: &'static str)
        ensures
            r@ == field_name(*self),
    {
        match self {
            Field::Title => {
                proof { reveal_strlit("title"); }
                "title"
            },
            Field::Comment => {
                proof { reveal_strlit("COMMENT"); }
                "COMMENT"
            },
            Field::Artist => {
                proof { reveal_strlit("ARTIST"); }
                "ARTIST"
            },
            Field::Album => {
                proof { reveal_strlit("ALBUM"); }
                "ALBUM"
            },
            Field::Date => {
                proof { reveal_strlit("DATE"); }
                "DATE"
            },
            Field::Description => {
                proof { reveal_strlit("DESCRIPTION"); }
                "DESCRIPTION"
            },
            Field::Synopsis => {
                proof { reveal_strlit("SYNOPSIS"); }
                "SYNOPSIS"
            },
            Field::Purl => {
                proof { reveal_strlit("PURL"); }
                "PURL"
            },
            Field::PartNumber => {
                proof { reveal_strlit("PART_NUMBER"); }
                "PART_NUMBER"
            },
            Field::TotalParts => {
                proof { reveal_strlit("TOTAL_PARTS"); }
                "TOTAL_PARTS"
            },
        }
    }

    /// The recognized field with the given name, if any.
    pub fn from_name(s: &[char]) -> (r: Option<Field>)
        ensures
            r == field_named(s@),
    {
        let mut i: usize = 0;
        while i < FIELD_COUNT
            invariant
                i <= FIELD_COUNT,
                forall|j: nat| j < i ==> s@ != field_name(#[trigger] field_at(j)),
            decreases FIELD_COUNT - i,
        {
            let f = Field::from_index(i);
            let name = f.name();
            if chars_equal(s, name) {
                proof {
                    lemma_field_named_inverse(f);
                }
                return Some(f);
            }
            i = i + 1;
        }
        proof {
            assert(s@ != field_name(field_at(0)));
            assert(s@ != field_name(field_at(1)));
            assert(s@ != field_name(field_at(2)));
            assert(s@ != field_name(field_at(3)));
            assert(s@ != field_name(field_at(4)));
            assert(s@ != field_name(field_at(5)));
            assert(s@ != field_name(field_at(6)));
            assert(s@ != field_name(field_at(7)));
            assert(s@ != field_name(field_at(8)));
            assert(s@ != field_name(field_at(9)));
        }
        None
    }
}

/// Whether a run of characters spells out a string.
pub fn chars_equal(a: &[char], b: &str) -> (r: bool)
    ensures
        r == (a@ == b@),
{
    let n = b.unicode_len();
    if a.len() != n {
        return false;
    }
    let mut i: usize = 0;
    while i < n
        invariant
            i <= n,
            n == a@.len(),
            n == b@.len(),
            a@.subrange(0, i as int) == b@.subrange(0, i as int),
        decreases n - i,
    {
        if a[i] != b.get_char(i) {
            return false;
        }
        proof {
            assert(a@.subrange(0, i + 1) == a@.subrange(0, i as int).push(a@[i as int]));
            assert(b@.subrange(0, i + 1) == b@.subrange(0, i as int).push(b@[i as int]));
        }
        i = i + 1;
    }
    proof {
        assert(a@ == a@.subrange(0, n as int));
        assert(b@ == b@.subrange(0, n as int));
    }
    true
}

/// Field order used when presenting a record for editing.
pub open spec fn display_fields() -> Seq<Field> {
    seq![Field::Title, Field::Artist, Field::Album, Field::PartNumber, Field::Description,
        Field::Comment, Field::Purl]
}

/// Field order used when presenting a record for editing.
pub fn display_order() -> (r: Vec<Field>)
    ensures
        r@ == display_fields(),
{
    vec![Field::Title, Field::Artist, Field::Album, Field::PartNumber, Field::Description,
        Field::Comment, Field::Purl]
}

} // verus!
