use vstd::prelude::*;
use crate::bitmap::{OperatorResult, row_range};
use crate::storage::{
    Alphabet, ColumnMetadata, DatabasePartition, SequenceStore, column_is_valid,
    find_column, lookup_column,
};

verus! {

/// The configuration a database is loaded with.
#[derive(Debug)]
pub struct DatabaseConfig {
    pub default_nucleotide_sequence: Option<String>,
    pub default_amino_acid_sequence: Option<String>,
    /// The metadata fields that every partition holds as columns.
    pub metadata: Vec<ColumnMetadata>,
}

/// Whether some metadata field is named `name`.
pub open spec fn has_metadata(metadata: Seq<ColumnMetadata>, name: Seq<char>) -> bool {
    exists|i: int| 0 <= i < metadata.len() && #[trigger] metadata[i].name@ == name
}

/// `m` is the first metadata field named `name`: same name and type.
pub open spec fn first_metadata(metadata: Seq<ColumnMetadata>, name: Seq<char>, m: ColumnMetadata) -> bool {
    &&& m.name@ == name
    &&& exists|i: int|
        0 <= i < metadata.len() && #[trigger] metadata[i].name@ == name && metadata[i].column_type
            == m.column_type && forall|t: int| 0 <= t < i ==> #[trigger] metadata[t].name@ != name
}

impl DatabaseConfig {
    /// The first metadata field named `name`, if the configuration has one.
    pub fn get_metadata(&self, name: &String) -> (r: Option<ColumnMetadata>)
        ensures
            r is Some <==> has_metadata(self.metadata@, name@),
            r matches Some(m) ==> first_metadata(self.metadata@, name@, m),
    {
        let mut i: usize = 0;
        while i < self.metadata.len()
            invariant
                i <= self.metadata@.len(),
                forall|t: int| 0 <= t < i ==> #[trigger] self.metadata@[t].name@ != name@,
            decreases self.metadata@.len() - i,
        {
            if self.metadata[i].name == *name {
                return Some(
                    ColumnMetadata {
                        name: self.metadata[i].name.clone(),
                        column_type: self.metadata[i].column_type,
                    },
                );
            }
            i = i + 1;
        }
        None
    }
}

/// Why a database failed its structural check.
#[derive(Debug, Clone, PartialEq, Eq)]
pub enum LoadError {
    /// A column does not hold one value of its type per row.
    InvalidColumn { partition: usize, column: usize },
    /// A configured metadata field has no column in a partition.
    MissingColumn { partition: usize, field: String },
    /// A configured metadata field's column has another type in a partition.
    ColumnTypeMismatch { partition: usize, field: String },
    /// A missing-symbol bitmap of a sequence store names a row outside its
    /// partition.
    InvalidSequenceStore { partition: usize, store: usize },
    /// A sequence name is listed twice for one alphabet.
    DuplicateSequenceName(String),
}

/// No two of `names` are equal.
pub open spec fn names_distinct(names: Seq<String>) -> bool {
    forall|i: int, j: int| 0 <= i < j < names.len() ==> names[i]@ != names[j]@
}

/// Every missing-symbol bitmap of `store` lies within `0..row_count`.
pub open spec fn store_fits(store: SequenceStore, row_count: u32) -> bool {
    forall|b: int|
        0 <= b < store.missing_symbol_bitmaps@.len() ==> (#[trigger] store.missing_symbol_bitmaps@[b])@.subset_of(
            row_range(row_count),
        )
}

fn store_is_valid(store: &SequenceStore, row_count: u32) -> (r: bool)
    ensures
        r == store_fits(*store, row_count),
{
    let mut b: usize = 0;
    while b < store.missing_symbol_bitmaps.len()
        invariant
            b <= store.missing_symbol_bitmaps@.len(),
            forall|t: int| 0 <= t < b ==> (#[trigger] store.missing_symbol_bitmaps@[t])@.subset_of(
                row_range(row_count),
            ),
        decreases store.missing_symbol_bitmaps@.len() - b,
    {
        let rows = store.missing_symbol_bitmaps[b].rows();
        if rows.len() > 0 {
            let last = rows[rows.len() - 1];
            if last >= row_count {
                assert(rows@.contains(last));
                assert(!row_range(row_count).contains(last));
                return false;
            }
            assert forall|x: u32| #[trigger] store.missing_symbol_bitmaps@[b as int]@.contains(x) implies row_range(row_count).contains(x) by {
                assert(rows@.contains(x));
                let k = choose|k: int| 0 <= k < rows@.len() && rows@[k] == x;
                if k < rows@.len() - 1 {
                    assert(rows@[k] < rows@[rows@.len() - 1]);
                }
            }
        } else {
            assert forall|x: u32| #[trigger] store.missing_symbol_bitmaps@[b as int]@.contains(x) implies row_range(row_count).contains(x) by {
                assert(rows@.contains(x));
            }
        }
        b = b + 1;
    }
    true
}

/// The index of a name that repeats an earlier one, if any.
fn find_duplicate(names: &Vec<String>) -> (r: Option<usize>)
    ensures
        r is None <==> names_distinct(names@),
        r matches Some(j) ==> j < names@.len() && exists|i: int| 0 <= i < j && names@[i]@ == names@[j as int]@,
{
    let mut j: usize = 0;
    while j < names.len()
        invariant
            j <= names@.len(),
            forall|a: int, b: int| 0 <= a < b < j ==> names@[a]@ != names@[b]@,
        decreases names@.len() - j,
    {
        let mut i: usize = 0;
        while i < j
            invariant
                j < names@.len(),
                i <= j,
                forall|a: int| 0 <= a < i ==> names@[a]@ != names@[j as int]@,
            decreases j - i,
        {
            if names[i] == names[j] {
                assert(!names_distinct(names@));
                return Some(j);
            }
            i = i + 1;
        }
        j = j + 1;
    }
    None
}

/// Whether partition `p` is well formed and holds a column of the right type
/// for every metadata field.
pub open spec fn partition_valid(metadata: Seq<ColumnMetadata>, p: DatabasePartition) -> bool {
    &&& p.wf()
    &&& forall|s: int|
        0 <= s < p.sequence_stores@.len() ==> store_fits(
            #[trigger] p.sequence_stores@[s],
            p.sequence_count,
        )
    &&& forall|m: int|
        0 <= m < metadata.len() ==> match lookup_column(p.columns@, (#[trigger] metadata[m]).name@) {
            Some(c) => p.columns@[c as int].column_type == metadata[m].column_type,
            None => false,
        }
}

/// A database: its configuration, its partitions in a fixed order, and the
/// names of its sequences per alphabet.
#[derive(Debug)]
pub struct Database {
    pub config: DatabaseConfig,
    pub partitions: Vec<DatabasePartition>,
    pub nucleotide_sequences: Vec<String>,
    pub amino_acid_sequences: Vec<String>,
}

fn copy_strings(v: &Vec<String>) -> (r: Vec<String>)
    ensures
        r@.len() == v@.len(),
        forall|i: int| 0 <= i < v@.len() ==> #[trigger] r@[i]@ == v@[i]@,
{
    let mut r: Vec<String> = Vec::new();
    let mut i: usize = 0;
    while i < v.len()
        invariant
            i <= v@.len(),
            r@.len() == i,
            forall|t: int| 0 <= t < i ==> #[trigger] r@[t]@ == v@[t]@,
        decreases v@.len() - i,
    {
        r.push(v[i].clone());
        i = i + 1;
    }
    r
}

fn copy_option(s: &Option<String>) -> (r: Option<String>)
    ensures
        r == *s,
{
    match s {
        Some(s) => Some(s.clone()),
        None => None,
    }
}

/// Statistics over all partitions of a database.
#[derive(Debug, Clone, Copy, PartialEq, Eq)]
pub struct DatabaseInfo {
    pub sequence_count: u64,
    pub total_size: u64,
    pub n_bitmaps_size: u64,
    pub number_of_partitions: usize,
}

/// The number of rows of the first `n` partitions.
pub open spec fn rows_in(partitions: Seq<DatabasePartition>, n: int) -> nat
    decreases n,
{
    if n <= 0 || partitions.len() < n {
        0
    } else {
        rows_in(partitions, n - 1) + partitions[n - 1].sequence_count as nat
    }
}

/// The compressed data size of the first `n` nucleotide stores of `stores`.
pub open spec fn nucleotide_data_size(stores: Seq<SequenceStore>, n: int) -> nat
    decreases n,
{
    if n <= 0 || stores.len() < n {
        0
    } else {
        nucleotide_data_size(stores, n - 1) + if stores[n - 1].alphabet == Alphabet::Nucleotide {
            stores[n - 1].data_size as nat
        } else {
            0
        }
    }
}

/// The compressed nucleotide data size of the first `n` partitions.
pub open spec fn data_size_in(partitions: Seq<DatabasePartition>, n: int) -> nat
    decreases n,
{
    if n <= 0 || partitions.len() < n {
        0
    } else {
        data_size_in(partitions, n - 1) + nucleotide_data_size(
            partitions[n - 1].sequence_stores@,
            partitions[n - 1].sequence_stores@.len() as int,
        )
    }
}

/// The serialized size of the first `n` bitmaps.
pub open spec fn bitmap_bytes(bitmaps: Seq<OperatorResult>, n: int) -> nat
    decreases n,
{
    if n <= 0 || bitmaps.len() < n {
        0
    } else {
        bitmap_bytes(bitmaps, n - 1) + bitmaps[n - 1].serialized_size()
    }
}

/// The serialized size of the missing-symbol bitmaps of the first `n`
/// nucleotide stores.
pub open spec fn nucleotide_bitmap_bytes(stores: Seq<SequenceStore>, n: int) -> nat
    decreases n,
{
    if n <= 0 || stores.len() < n {
        0
    } else {
        nucleotide_bitmap_bytes(stores, n - 1) + if stores[n - 1].alphabet == Alphabet::Nucleotide {
            bitmap_bytes(
                stores[n - 1].missing_symbol_bitmaps@,
                stores[n - 1].missing_symbol_bitmaps@.len() as int,
            )
        } else {
            0
        }
    }
}

/// The serialized size of the nucleotide missing-symbol bitmaps of the first
/// `n` partitions.
pub open spec fn bitmap_bytes_in(partitions: Seq<DatabasePartition>, n: int) -> nat
    decreases n,
{
    if n <= 0 || partitions.len() < n {
        0
    } else {
        bitmap_bytes_in(partitions, n - 1) + nucleotide_bitmap_bytes(
            partitions[n - 1].sequence_stores@,
            partitions[n - 1].sequence_stores@.len() as int,
        )
    }
}

proof fn lemma_bitmap_bytes_monotone(bitmaps: Seq<OperatorResult>, a: int, b: int)
    requires
        0 <= a <= b <= bitmaps.len(),
    ensures
        bitmap_bytes(bitmaps, a) <= bitmap_bytes(bitmaps, b),
    decreases b - a,
{
    if a < b {
        lemma_bitmap_bytes_monotone(bitmaps, a, b - 1);
    }
}

proof fn lemma_store_sums_monotone(stores: Seq<SequenceStore>, a: int, b: int)
    requires
        0 <= a <= b <= stores.len(),
    ensures
        nucleotide_data_size(stores, a) <= nucleotide_data_size(stores, b),
        nucleotide_bitmap_bytes(stores, a) <= nucleotide_bitmap_bytes(stores, b),
    decreases b - a,
{
    if a < b {
        lemma_store_sums_monotone(stores, a, b - 1);
    }
}

proof fn lemma_partition_sums_monotone(partitions: Seq<DatabasePartition>, a: int, b: int)
    requires
        0 <= a <= b <= partitions.len(),
    ensures
        rows_in(partitions, a) <= rows_in(partitions, b),
        data_size_in(partitions, a) <= data_size_in(partitions, b),
        bitmap_bytes_in(partitions, a) <= bitmap_bytes_in(partitions, b),
    decreases b - a,
{
    if a < b {
        lemma_partition_sums_monotone(partitions, a, b - 1);
    }
}

/// The sizes of one partition, before they are added to those of the others.
struct PartialInfo {
    data_size: u64,
    n_bitmaps_size: u64,
}

/// The sizes of the nucleotide stores of `p`: their data, and their
/// missing-symbol bitmaps; `None` where a sum does not fit in a `u64`.
fn partition_sizes(p: &DatabasePartition) -> (r: Option<PartialInfo>)
    ensures
        r is Some <==> nucleotide_data_size(p.sequence_stores@, p.sequence_stores@.len() as int)
            <= u64::MAX && nucleotide_bitmap_bytes(
            p.sequence_stores@,
            p.sequence_stores@.len() as int,
        ) <= u64::MAX,
        r matches Some(info) ==> info.data_size == nucleotide_data_size(
            p.sequence_stores@,
            p.sequence_stores@.len() as int,
        ) && info.n_bitmaps_size == nucleotide_bitmap_bytes(
            p.sequence_stores@,
            p.sequence_stores@.len() as int,
        ),
{
    let ghost stores = p.sequence_stores@;
    let ghost n = stores.len() as int;
    let mut data_size: u64 = 0;
    let mut n_bitmaps_size: u64 = 0;
    let mut s: usize = 0;
    while s < p.sequence_stores.len()
        invariant
            stores == p.sequence_stores@,
            n == stores.len(),
            s <= n,
            data_size == nucleotide_data_size(stores, s as int),
            n_bitmaps_size == nucleotide_bitmap_bytes(stores, s as int),
        decreases n - s,
    {
        let store = &p.sequence_stores[s];
        proof {
            lemma_store_sums_monotone(stores, s + 1, n);
        }
        if store.alphabet == Alphabet::Nucleotide {
            data_size = data_size.checked_add(store.data_size)?;
            let ghost bitmaps = store.missing_symbol_bitmaps@;
            let mut b: usize = 0;
            while b < store.missing_symbol_bitmaps.len()
                invariant
                    stores == p.sequence_stores@,
                    n == stores.len(),
                    s < n,
                    *store == stores[s as int],
                    store.alphabet == Alphabet::Nucleotide,
                    bitmaps == store.missing_symbol_bitmaps@,
                    b <= bitmaps.len(),
                    nucleotide_bitmap_bytes(stores, s as int + 1) <= nucleotide_bitmap_bytes(stores, n),
                    n_bitmaps_size == nucleotide_bitmap_bytes(stores, s as int) + bitmap_bytes(bitmaps, b as int),
                decreases bitmaps.len() - b,
            {
                proof {
                    lemma_bitmap_bytes_monotone(bitmaps, b + 1, bitmaps.len() as int);
                }
                let size = store.missing_symbol_bitmaps[b].size_in_bytes();
                n_bitmaps_size = n_bitmaps_size.checked_add(size as u64)?;
                b = b + 1;
            }
        }
        s = s + 1;
    }
    Some(PartialInfo { data_size, n_bitmaps_size })
}

impl Database {
    /// Every partition is valid for the configuration, and no sequence name
    /// is listed twice for one alphabet.
    pub open spec fn wf(&self) -> bool {
        &&& forall|i: int|
            0 <= i < self.partitions@.len() ==> partition_valid(
                self.config.metadata@,
                #[trigger] self.partitions@[i],
            )
        &&& names_distinct(self.nucleotide_sequences@)
        &&& names_distinct(self.amino_acid_sequences@)
    }

    /// An empty database with the given configuration.
    pub fn new(database_config: DatabaseConfig) -> (r: Database)
        ensures
            r.config == database_config,
            r.partitions@.len() == 0,
            r.nucleotide_sequences@.len() == 0,
            r.amino_acid_sequences@.len() == 0,
            r.wf(),
    {
        Database {
            config: database_config,
            partitions: Vec::new(),
            nucleotide_sequences: Vec::new(),
            amino_acid_sequences: Vec::new(),
        }
    }

    /// The names of the sequences of the given alphabet.
    pub fn get_sequence_names(&self, alphabet: Alphabet) -> (r: Vec<String>)
        ensures
            alphabet == Alphabet::Nucleotide ==> r@.len() == self.nucleotide_sequences@.len()
                && forall|i: int|
                0 <= i < r@.len() ==> #[trigger] r@[i]@ == self.nucleotide_sequences@[i]@,
            alphabet == Alphabet::AminoAcid ==> r@.len() == self.amino_acid_sequences@.len()
                && forall|i: int|
                0 <= i < r@.len() ==> #[trigger] r@[i]@ == self.amino_acid_sequences@[i]@,
            self.wf() ==> names_distinct(r@),
    {
        match alphabet {
            Alphabet::Nucleotide => copy_strings(&self.nucleotide_sequences),
            Alphabet::AminoAcid => copy_strings(&self.amino_acid_sequences),
        }
    }

    /// The configured default sequence of the given alphabet.
    pub fn get_default_sequence_name(&self, alphabet: Alphabet) -> (r: Option<String>)
        ensures
            alphabet == Alphabet::Nucleotide ==> r == self.config.default_nucleotide_sequence,
            alphabet == Alphabet::AminoAcid ==> r == self.config.default_amino_acid_sequence,
    {
        match alphabet {
            Alphabet::Nucleotide => copy_option(&self.config.default_nucleotide_sequence),
            Alphabet::AminoAcid => copy_option(&self.config.default_amino_acid_sequence),
        }
    }

    /// Checks every partition against the configuration.
    pub fn validate(&self) -> (r: Result<(), LoadError>)
        ensures
            r is Ok <==> self.wf(),
            r matches Err(LoadError::InvalidColumn { partition, column }) ==> partition
                < self.partitions@.len() && column < self.partitions@[partition as int].columns@.len()
                && !self.partitions@[partition as int].columns@[column as int].wf(
                self.partitions@[partition as int].sequence_count as nat,
            ),
            r matches Err(LoadError::MissingColumn { partition, field }) ==> partition
                < self.partitions@.len() && has_metadata(self.config.metadata@, field@)
                && lookup_column(self.partitions@[partition as int].columns@, field@) is None,
            r matches Err(LoadError::ColumnTypeMismatch { partition, field }) ==> partition
                < self.partitions@.len() && has_metadata(self.config.metadata@, field@),
            r matches Err(LoadError::InvalidSequenceStore { partition, store }) ==> partition
                < self.partitions@.len() && store < self.partitions@[partition as int].sequence_stores@.len()
                && !store_fits(
                self.partitions@[partition as int].sequence_stores@[store as int],
                self.partitions@[partition as int].sequence_count,
            ),
            r matches Err(LoadError::DuplicateSequenceName(name)) ==> !names_distinct(
                self.nucleotide_sequences@,
            ) || !names_distinct(self.amino_acid_sequences@),
    {
        let mut i: usize = 0;
        while i < self.partitions.len()
            invariant
                i <= self.partitions@.len(),
                forall|t: int|
                    0 <= t < i ==> partition_valid(
                        self.config.metadata@,
                        #[trigger] self.partitions@[t],
                    ),
            decreases self.partitions@.len() - i,
        {
            let p = &self.partitions[i];
            let mut c: usize = 0;
            while c < p.columns.len()
                invariant
                    i < self.partitions@.len(),
                    *p == self.partitions@[i as int],
                    c <= p.columns@.len(),
                    forall|k: int|
                        0 <= k < c ==> (#[trigger] p.columns@[k]).wf(p.sequence_count as nat),
                decreases p.columns@.len() - c,
            {
                if !column_is_valid(&p.columns[c], p.sequence_count) {
                    assert(!p.wf());
                    return Err(LoadError::InvalidColumn { partition: i, column: c });
                }
                c = c + 1;
            }
            let mut m: usize = 0;
            while m < self.config.metadata.len()
                invariant
                    i < self.partitions@.len(),
                    *p == self.partitions@[i as int],
                    p.wf(),
                    m <= self.config.metadata@.len(),
                    forall|t: int|
                        0 <= t < m ==> match lookup_column(
                            p.columns@,
                            (#[trigger] self.config.metadata@[t]).name@,
                        ) {
                            Some(c) => p.columns@[c as int].column_type
                                == self.config.metadata@[t].column_type,
                            None => false,
                        },
                decreases self.config.metadata@.len() - m,
            {
                let field = &self.config.metadata[m];
                assert(has_metadata(self.config.metadata@, field.name@));
                match find_column(&p.columns, &field.name) {
                    None => {
                        assert(!partition_valid(self.config.metadata@, *p));
                        return Err(
                            LoadError::MissingColumn { partition: i, field: field.name.clone() },
                        );
                    },
                    Some(c) => {
                        if p.columns[c].column_type != field.column_type {
                            assert(!partition_valid(self.config.metadata@, *p));
                            return Err(
                                LoadError::ColumnTypeMismatch {
                                    partition: i,
                                    field: field.name.clone(),
                                },
                            );
                        }
                    },
                }
                m = m + 1;
            }
            let mut st: usize = 0;
            while st < p.sequence_stores.len()
                invariant
                    i < self.partitions@.len(),
                    *p == self.partitions@[i as int],
                    p.wf(),
                    forall|t: int|
                        0 <= t < self.config.metadata@.len() ==> match lookup_column(
                            p.columns@,
                            (#[trigger] self.config.metadata@[t]).name@,
                        ) {
                            Some(c) => p.columns@[c as int].column_type
                                == self.config.metadata@[t].column_type,
                            None => false,
                        },
                    st <= p.sequence_stores@.len(),
                    forall|t: int|
                        0 <= t < st ==> store_fits(#[trigger] p.sequence_stores@[t], p.sequence_count),
                decreases p.sequence_stores@.len() - st,
            {
                if !store_is_valid(&p.sequence_stores[st], p.sequence_count) {
                    assert(!partition_valid(self.config.metadata@, *p));
                    return Err(LoadError::InvalidSequenceStore { partition: i, store: st });
                }
                st = st + 1;
            }
            i = i + 1;
        }
        if let Some(j) = find_duplicate(&self.nucleotide_sequences) {
            return Err(LoadError::DuplicateSequenceName(self.nucleotide_sequences[j].clone()));
        }
        if let Some(j) = find_duplicate(&self.amino_acid_sequences) {
            return Err(LoadError::DuplicateSequenceName(self.amino_acid_sequences[j].clone()));
        }
        Ok(())
    }

    /// Row count, sizes and partition count over all partitions, each
    /// partition reduced on its own and the partial sums then added; `None`
    /// exactly where a sum does not fit in a `u64`. The total size is the
    /// nucleotide data size plus the serialized size of the nucleotide
    /// missing-symbol bitmaps.
    pub fn get_database_info(&self) -> (r: Option<DatabaseInfo>)
        ensures
            ({
                let n = self.partitions@.len() as int;
                &&& r is Some <==> rows_in(self.partitions@, n) <= u64::MAX && data_size_in(
                    self.partitions@,
                    n,
                ) <= u64::MAX && bitmap_bytes_in(self.partitions@, n) <= u64::MAX && data_size_in(
                    self.partitions@,
                    n,
                ) + bitmap_bytes_in(self.partitions@, n) <= u64::MAX
                &&& r matches Some(info) ==> {
                    &&& info.sequence_count == rows_in(self.partitions@, n)
                    &&& info.number_of_partitions == self.partitions@.len()
                    &&& info.n_bitmaps_size == bitmap_bytes_in(self.partitions@, n)
                    &&& info.total_size == data_size_in(self.partitions@, n) + bitmap_bytes_in(
                        self.partitions@,
                        n,
                    )
                }
            }),
    {
        let ghost parts = self.partitions@;
        let ghost n = parts.len() as int;
        let mut sequence_count: u64 = 0;
        let mut data_size: u64 = 0;
        let mut n_bitmaps_size: u64 = 0;
        let mut i: usize = 0;
        while i < self.partitions.len()
            invariant
                parts == self.partitions@,
                n == parts.len(),
                i <= n,
                sequence_count == rows_in(parts, i as int),
                data_size == data_size_in(parts, i as int),
                n_bitmaps_size == bitmap_bytes_in(parts, i as int),
            decreases n - i,
        {
            let p = &self.partitions[i];
            proof {
                lemma_partition_sums_monotone(parts, i + 1, n);
            }
            let partial = partition_sizes(p)?;
            sequence_count = sequence_count.checked_add(p.sequence_count as u64)?;
            data_size = data_size.checked_add(partial.data_size)?;
            n_bitmaps_size = n_bitmaps_size.checked_add(partial.n_bitmaps_size)?;
            i = i + 1;
        }
        let total_size = data_size.checked_add(n_bitmaps_size)?;
        Some(
            DatabaseInfo {
                sequence_count,
                total_size,
                n_bitmaps_size,
                number_of_partitions: self.partitions.len(),
            },
        )
    }
}

} // verus!
