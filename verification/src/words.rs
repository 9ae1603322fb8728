//! The word catalog: secret words tagged with a difficulty bucket and taboo
//! hint words, loaded once from tabular text, with weighted random draws.

use vstd::prelude::*;

use crate::rng::{random_below, shuffle};

verus! {

/// Difficulty bucket of a word.  Draws favour easy words: 70% easy,
/// 20% medium, 10% hard.
#[derive(Clone, Copy, PartialEq, Eq, Structural, Debug, Hash)]
pub enum Complexity {
    Easy,
    Medium,
    Hard,
}

/// One secret word: its text, its difficulty bucket, all its taboo hint
/// words, and the subset of hints most recently drawn for display.
pub struct Word {
    pub text: String,
    pub complexity: Complexity,
    pub taboo_words: Vec<String>,
    pub selected_taboo_words: Vec<String>,
}

/// The mathematical value of a `Word`.
pub struct WordModel {
    pub text: Seq<char>,
    pub complexity: Complexity,
    pub taboo_words: Seq<Seq<char>>,
    pub selected_taboo_words: Seq<Seq<char>>,
}

impl View for Word {
    type V = WordModel;

    open spec fn view(&self) -> WordModel {
        WordModel {
            text: self.text@,
            complexity: self.complexity,
            taboo_words: self.taboo_words@.map_values(|s: String| s@),
            selected_taboo_words: self.selected_taboo_words@.map_values(|s: String| s@),
        }
    }
}

fn clone_string_vec(v: &Vec<String>) -> (r: Vec<String>)
    ensures
        r@ == v@,
{
    let mut out: Vec<String> = Vec::new();
    let mut i: usize = 0;
    while i < v.len()
        invariant
            i <= v@.len(),
            out@ == v@.take(i as int),
        decreases v@.len() - i,
    {
        out.push(v[i].clone());
        proof {
            assert(out@ =~= v@.take(i as int + 1));
        }
        i += 1;
    }
    proof {
        assert(v@.take(v@.len() as int) =~= v@);
    }
    out
}

impl Clone for Word {
    fn clone(&self) -> (r: Self)
        ensures
            r@ == self@,
    {
        Word {
            text: self.text.clone(),
            complexity: self.complexity,
            taboo_words: clone_string_vec(&self.taboo_words),
            selected_taboo_words: clone_string_vec(&self.selected_taboo_words),
        }
    }
}

/// The taboo hint lines of a word message: each drawn hint on its own line
/// behind a cross mark, lines separated by newlines.
pub open spec fn crossed_lines(ws: Seq<Seq<char>>) -> Seq<char>
    decreases ws.len(),
{
    if ws.len() == 0 {
        Seq::empty()
    } else if ws.len() == 1 {
        "❌ "@ + ws[0]
    } else {
        crossed_lines(ws.drop_last()) + "\n"@ + "❌ "@ + ws.last()
    }
}

/// The text a describer is shown for `w`: the word itself and, when taboo
/// hints are on, the drawn hints below it.
pub open spec fn message_string(w: WordModel, use_taboo_words: bool) -> Seq<char> {
    if use_taboo_words {
        w.text + "\n\n"@ + crossed_lines(w.selected_taboo_words)
    } else {
        w.text
    }
}

impl Word {
    /// Renders the message shown to the describing player.
    pub fn get_message_string(&self, use_taboo_words: bool) -> (r: String)
        ensures
            r@ == message_string(self@, use_taboo_words),
    {
        if use_taboo_words {
            let mut out = self.text.clone();
            out.append("\n\n");
            let mut i: usize = 0;
            while i < self.selected_taboo_words.len()
                invariant
                    i <= self.selected_taboo_words@.len(),
                    out@ == self.text@ + "\n\n"@ + crossed_lines(
                        self@.selected_taboo_words.take(i as int),
                    ),
                decreases self.selected_taboo_words@.len() - i,
            {
                if i > 0 {
                    out.append("\n");
                }
                out.append("❌ ");
                out.append(self.selected_taboo_words[i].as_str());
                proof {
                    let sel = self@.selected_taboo_words;
                    assert(sel.take(i as int + 1).drop_last() =~= sel.take(i as int));
                    assert(sel.take(i as int + 1).last() == sel[i as int]);
                    if i == 0 {
                        assert(crossed_lines(sel.take(1)) =~= "❌ "@ + sel[0]);
                    }
                    assert(out@ =~= self.text@ + "\n\n"@ + crossed_lines(sel.take(i as int + 1)));
                }
                i += 1;
            }
            proof {
                let sel = self@.selected_taboo_words;
                assert(sel.take(sel.len() as int) =~= sel);
            }
            out
        } else {
            self.text.clone()
        }
    }

    /// A copy of `other` with a fresh random subset of up to four taboo
    /// hints drawn for display.
    pub fn select_taboo_words(other: &Word) -> (r: Word)
        ensures
            r.text@ == other.text@,
            r.complexity == other.complexity,
            r.taboo_words@ == other.taboo_words@,
            r@.selected_taboo_words.len() == if other@.taboo_words.len() < 4 {
                other@.taboo_words.len()
            } else {
                4
            },
            r@.selected_taboo_words.to_multiset().subset_of(other@.taboo_words.to_multiset()),
    {
        let mut pool = clone_string_vec(&other.taboo_words);
        shuffle(&mut pool);
        let ghost shuffled = pool@;
        pool.truncate(4);
        proof {
            broadcast use vstd::seq_lib::group_seq_properties;

            let full = other.taboo_words@;
            assert(shuffled.to_multiset() == full.to_multiset());
            vstd::seq_lib::to_multiset_len(shuffled);
            vstd::seq_lib::to_multiset_len(full);
            assert(shuffled.len() == full.len());
            vstd::seq_lib::lemma_multiset_commutative(pool@, shuffled.skip(pool@.len() as int));
            if 4 <= shuffled.len() {
                assert(pool@ + shuffled.skip(4) =~= shuffled);
            } else {
                assert(pool@ =~= shuffled);
                assert(pool@ + shuffled.skip(pool@.len() as int) =~= shuffled);
            }
            assert(pool@.to_multiset().subset_of(full.to_multiset()));
            crate::seqs::lemma_map_values_multiset_le(|t: String| t@, pool@, full);
        }
        Word {
            text: other.text.clone(),
            complexity: other.complexity,
            taboo_words: clone_string_vec(&other.taboo_words),
            selected_taboo_words: pool,
        }
    }
}

/// The views of a sequence of strings.
pub open spec fn strings_view(ss: Seq<String>) -> Seq<Seq<char>> {
    ss.map_values(|s: String| s@)
}

/// The views of a whole table of cells.
pub open spec fn table_view(rows: Seq<Vec<String>>) -> Seq<Seq<Seq<char>>> {
    rows.map_values(|r: Vec<String>| strings_view(r@))
}

/// The first column whose header is `name`, or the column count if none is.
pub open spec fn col_of(headers: Seq<Seq<char>>, name: Seq<char>) -> int
    decreases headers.len(),
{
    if headers.len() == 0 {
        0
    } else if headers[0] == name {
        0
    } else {
        1 + col_of(headers.drop_first(), name)
    }
}

/// Does some column carry this header?
pub open spec fn has_col(headers: Seq<Seq<char>>, name: Seq<char>) -> bool {
    col_of(headers, name) < headers.len()
}

proof fn lemma_col_of(headers: Seq<Seq<char>>, name: Seq<char>)
    ensures
        0 <= col_of(headers, name) <= headers.len(),
        col_of(headers, name) < headers.len() ==> headers[col_of(headers, name)] == name,
        forall|j: int| 0 <= j < col_of(headers, name) ==> headers[j] != name,
        (exists|j: int| 0 <= j < headers.len() && headers[j] == name) ==> has_col(headers, name),
    decreases headers.len(),
{
    if headers.len() > 0 && headers[0] != name {
        let tail = headers.drop_first();
        lemma_col_of(tail, name);
        assert forall|j: int| 0 <= j < col_of(headers, name) implies headers[j] != name by {
            if j >= 1 {
                assert(tail[j - 1] == headers[j]);
                assert(j - 1 < col_of(tail, name));
            }
        }
        if exists|j: int| 0 <= j < headers.len() && headers[j] == name {
            let j = choose|j: int| 0 <= j < headers.len() && headers[j] == name;
            assert(tail[j - 1] == name);
        }
    }
}

/// The difficulty named by a complexity cell.
pub open spec fn complexity_of(s: Seq<char>) -> Option<Complexity> {
    if s == "1"@ {
        Some(Complexity::Easy)
    } else if s == "2"@ {
        Some(Complexity::Medium)
    } else if s == "3"@ {
        Some(Complexity::Hard)
    } else {
        None
    }
}

/// The cells of a row other than the text and complexity columns, in order:
/// the row's taboo hint words.
pub open spec fn taboo_of_row(row: Seq<Seq<char>>, ti: int, ci: int) -> Seq<Seq<char>>
    decreases row.len(),
{
    if row.len() == 0 {
        Seq::empty()
    } else {
        let rest = taboo_of_row(row.drop_last(), ti, ci);
        if row.len() - 1 == ti || row.len() - 1 == ci {
            rest
        } else {
            rest.push(row.last())
        }
    }
}

/// Can this row be read as a word under these headers?
pub open spec fn row_ok(headers: Seq<Seq<char>>, row: Seq<Seq<char>>) -> bool {
    &&& col_of(headers, "text"@) < row.len()
    &&& col_of(headers, "complexity"@) < row.len()
    &&& complexity_of(row[col_of(headers, "complexity"@)]) is Some
}

/// Can every row be read as a word under these headers?
pub open spec fn rows_ok(headers: Seq<Seq<char>>, rows: Seq<Seq<Seq<char>>>) -> bool {
    forall|i: int| 0 <= i < rows.len() ==> row_ok(headers, #[trigger] rows[i])
}

/// The word a row denotes under these headers.
pub open spec fn word_of_row(headers: Seq<Seq<char>>, row: Seq<Seq<char>>) -> WordModel {
    WordModel {
        text: row[col_of(headers, "text"@)],
        complexity: complexity_of(row[col_of(headers, "complexity"@)]).unwrap(),
        taboo_words: taboo_of_row(row, col_of(headers, "text"@), col_of(headers, "complexity"@)),
        selected_taboo_words: Seq::empty(),
    }
}

/// The words of all readable rows of difficulty `c`, in row order.
pub open spec fn bucket_rows(
    headers: Seq<Seq<char>>,
    rows: Seq<Seq<Seq<char>>>,
    c: Complexity,
) -> Seq<WordModel>
    decreases rows.len(),
{
    if rows.len() == 0 {
        Seq::empty()
    } else {
        let rest = bucket_rows(headers, rows.drop_last(), c);
        let row = rows.last();
        if row_ok(headers, row) && word_of_row(headers, row).complexity == c {
            rest.push(word_of_row(headers, row))
        } else {
            rest
        }
    }
}

/// The views of a sequence of words.
pub open spec fn words_view(ws: Seq<Word>) -> Seq<WordModel> {
    ws.map_values(|w: Word| w@)
}

/// Why a word table cannot back a catalog.
#[derive(Clone, Copy, PartialEq, Eq, Structural, Debug)]
pub enum WordLoadError {
    /// The tabular source itself cannot be read.
    BadTable,
    /// A row cannot be read as a word.
    BadRecord,
    /// Some difficulty bucket would be empty.
    EmptyBucket,
}

/// A word drawn for display: the same word, with a fresh hint subset.
pub open spec fn drawn_from(w: Word, r: Word) -> bool {
    &&& r.text@ == w.text@
    &&& r.complexity == w.complexity
    &&& r@.taboo_words == w@.taboo_words
    &&& r@.selected_taboo_words.len() == if w@.taboo_words.len() < 4 {
        w@.taboo_words.len()
    } else {
        4
    }
    &&& r@.selected_taboo_words.to_multiset().subset_of(w@.taboo_words.to_multiset())
}

/// The fixed word set, partitioned by difficulty.  Loaded once at startup;
/// never mutated afterwards.
pub struct WordCatalog {
    pub easy: Vec<Word>,
    pub medium: Vec<Word>,
    pub hard: Vec<Word>,
}

impl WordCatalog {
    /// The words of one difficulty bucket.
    pub open spec fn bucket(self, c: Complexity) -> Seq<Word> {
        match c {
            Complexity::Easy => self.easy@,
            Complexity::Medium => self.medium@,
            Complexity::Hard => self.hard@,
        }
    }

    /// Well-formedness: no bucket is empty and each holds only words of its
    /// own difficulty.
    pub open spec fn wf(self) -> bool {
        &&& self.easy@.len() > 0
        &&& self.medium@.len() > 0
        &&& self.hard@.len() > 0
        &&& forall|i: int|
            0 <= i < self.easy@.len() ==> (#[trigger] self.easy@[i]).complexity
                == Complexity::Easy
        &&& forall|i: int|
            0 <= i < self.medium@.len() ==> (#[trigger] self.medium@[i]).complexity
                == Complexity::Medium
        &&& forall|i: int|
            0 <= i < self.hard@.len() ==> (#[trigger] self.hard@[i]).complexity
                == Complexity::Hard
    }

    /// Does the catalog hold a word that `r` was drawn from?
    pub open spec fn sourced(self, r: Word) -> bool {
        exists|c: Complexity, i: int|
            0 <= i < self.bucket(c).len() && drawn_from(#[trigger] self.bucket(c)[i], r)
    }

    /// Draws a word: first a difficulty bucket by weighted coin flip —
    /// 70% easy, 20% medium, 10% hard — then a uniform word of that bucket,
    /// then a fresh subset of its taboo hints.
    pub fn get_random_word(&self) -> (r: Word)
        requires
            self.wf(),
        ensures
            self.sourced(r),
    {
        let roll = random_below(10);
        let source = if roll < 7 {
            &self.easy
        } else if roll < 9 {
            &self.medium
        } else {
            &self.hard
        };
        let ghost c = if roll < 7 {
            Complexity::Easy
        } else if roll < 9 {
            Complexity::Medium
        } else {
            Complexity::Hard
        };
        let idx = random_below(source.len() as u64) as usize;
        let r = Word::select_taboo_words(&source[idx]);
        proof {
            assert(0 <= idx < self.bucket(c).len() && drawn_from(self.bucket(c)[idx as int], r));
        }
        r
    }
}

/// The table the csv crate reads out of `data`: the header row and the
/// records, or nothing where any of them fails to parse.  The parse is a
/// function of the text alone.
pub uninterp spec fn csv_table_of(data: Seq<char>) -> Option<
    (Seq<Seq<char>>, Seq<Seq<Seq<char>>>),
>;

/// Relies on csv's `Reader` with its default strict configuration: the
/// header row and every record parse, or an error is yielded in their
/// place, and every parsed record has exactly one field per header column.
/// The result depends on the text alone, so it is `csv_table_of(data@)`.
#[verifier::external_body]
fn read_csv_table(data: &str) -> (r: Option<(Vec<String>, Vec<Vec<String>>)>)
    ensures
        r is Some <==> csv_table_of(data@) is Some,
        r matches Some(t) ==> {
            &&& strings_view(t.0@) == csv_table_of(data@).unwrap().0
            &&& table_view(t.1@) == csv_table_of(data@).unwrap().1
            &&& forall|i: int|
                0 <= i < t.1@.len() ==> (#[trigger] t.1@[i])@.len() == t.0@.len()
        },
{
    let mut rdr = csv::Reader::from_reader(data.as_bytes());
    let headers: Vec<String> = match rdr.headers() {
        Ok(h) => h.iter().map(|f| f.to_string()).collect(),
        Err(_) => return None,
    };
    let mut rows: Vec<Vec<String>> = Vec::new();
    for rec in rdr.records() {
        match rec {
            Ok(r) => rows.push(r.iter().map(|f| f.to_string()).collect()),
            Err(_) => return None,
        }
    }
    Some((headers, rows))
}

fn find_col(headers: &Vec<String>, name: &str) -> (r: Option<usize>)
    ensures
        match r {
            Some(i) => i < headers@.len() && i == col_of(strings_view(headers@), name@),
            None => !has_col(strings_view(headers@), name@),
        },
{
    let ghost hv = strings_view(headers@);
    proof {
        lemma_col_of(hv, name@);
    }
    let mut i: usize = 0;
    let n = headers.len();
    while i < n
        invariant
            i <= n == headers@.len(),
            hv == strings_view(headers@),
            forall|j: int| 0 <= j < i ==> hv[j] != name@,
        decreases n - i,
    {
        if crate::text::str_eq(headers[i].as_str(), name) {
            proof {
                lemma_col_of(hv, name@);
                assert(hv[i as int] == name@);
            }
            return Some(i);
        }
        i += 1;
    }
    proof {
        lemma_col_of(hv, name@);
        if has_col(hv, name@) {
            assert(hv[col_of(hv, name@)] == name@);
        }
    }
    None
}

fn parse_complexity(cell: &String) -> (r: Option<Complexity>)
    ensures
        r == complexity_of(cell@),
{
    if crate::text::str_eq(cell.as_str(), "1") {
        Some(Complexity::Easy)
    } else if crate::text::str_eq(cell.as_str(), "2") {
        Some(Complexity::Medium)
    } else if crate::text::str_eq(cell.as_str(), "3") {
        Some(Complexity::Hard)
    } else {
        None
    }
}

/// What building a catalog from a parsed table must yield: a missing
/// `text` or `complexity` column or an unreadable row refuses the table, a
/// readable table with an empty difficulty bucket is refused as such, and
/// otherwise the catalog holds exactly the rows' words, partitioned by
/// difficulty in row order.
pub open spec fn catalog_outcome(
    hv: Seq<Seq<char>>,
    rv: Seq<Seq<Seq<char>>>,
    r: Result<WordCatalog, WordLoadError>,
) -> bool {
    &&& (!has_col(hv, "text"@) || !has_col(hv, "complexity"@)) ==> r == Err::<
        WordCatalog,
        WordLoadError,
    >(WordLoadError::BadRecord)
    &&& (has_col(hv, "text"@) && has_col(hv, "complexity"@) && !rows_ok(hv, rv)) ==> r == Err::<
        WordCatalog,
        WordLoadError,
    >(WordLoadError::BadRecord)
    &&& (has_col(hv, "text"@) && has_col(hv, "complexity"@) && rows_ok(hv, rv)) ==> {
        if bucket_rows(hv, rv, Complexity::Easy).len() > 0 && bucket_rows(
            hv,
            rv,
            Complexity::Medium,
        ).len() > 0 && bucket_rows(hv, rv, Complexity::Hard).len() > 0 {
            r matches Ok(cat) && words_view(cat.easy@) == bucket_rows(hv, rv, Complexity::Easy)
                && words_view(cat.medium@) == bucket_rows(hv, rv, Complexity::Medium)
                && words_view(cat.hard@) == bucket_rows(hv, rv, Complexity::Hard) && cat.wf()
        } else {
            r == Err::<WordCatalog, WordLoadError>(WordLoadError::EmptyBucket)
        }
    }
}

/// Builds the catalog from a parsed table: the `text` and `complexity`
/// columns name each word and its bucket, every other column is a taboo
/// hint.  Fails if either column is missing, a complexity cell is not one
/// of `1`, `2`, `3`, a row is too short, or a bucket ends up empty.
pub fn catalog_from_records(headers: Vec<String>, rows: Vec<Vec<String>>) -> (r: Result<
    WordCatalog,
    WordLoadError,
>)
    ensures
        catalog_outcome(strings_view(headers@), table_view(rows@), r),
{
    let ghost hv = strings_view(headers@);
    let ghost rv = table_view(rows@);
    let ti = match find_col(&headers, "text") {
        Some(i) => i,
        None => { return Err(WordLoadError::BadRecord) },
    };
    let ci = match find_col(&headers, "complexity") {
        Some(i) => i,
        None => { return Err(WordLoadError::BadRecord) },
    };
    let mut easy: Vec<Word> = Vec::new();
    let mut medium: Vec<Word> = Vec::new();
    let mut hard: Vec<Word> = Vec::new();
    let mut i: usize = 0;
    while i < rows.len()
        invariant
            hv == strings_view(headers@),
            rv == table_view(rows@),
            ti == col_of(hv, "text"@),
            ci == col_of(hv, "complexity"@),
            i <= rows@.len() == rv.len(),
            rows_ok(hv, rv.take(i as int)),
            words_view(easy@) == bucket_rows(hv, rv.take(i as int), Complexity::Easy),
            words_view(medium@) == bucket_rows(hv, rv.take(i as int), Complexity::Medium),
            words_view(hard@) == bucket_rows(hv, rv.take(i as int), Complexity::Hard),
            forall|k: int|
                0 <= k < easy@.len() ==> (#[trigger] easy@[k]).complexity == Complexity::Easy,
            forall|k: int|
                0 <= k < medium@.len() ==> (#[trigger] medium@[k]).complexity
                    == Complexity::Medium,
            forall|k: int|
                0 <= k < hard@.len() ==> (#[trigger] hard@[k]).complexity == Complexity::Hard,
        decreases rows@.len() - i,
    {
        proof {
            assert(rv[i as int] == strings_view(rows@[i as int]@));
        }
        let row = &rows[i];
        if ti >= row.len() || ci >= row.len() {
            proof {
                assert(!row_ok(hv, rv[i as int]));
            }
            return Err(WordLoadError::BadRecord);
        }
        let cx = match parse_complexity(&row[ci]) {
            Some(c) => c,
            None => {
                proof {
                    assert(rv[i as int][ci as int] == rows@[i as int]@[ci as int]@);
                    assert(!row_ok(hv, rv[i as int]));
                }
                return Err(WordLoadError::BadRecord)
            },
        };
        let mut taboo: Vec<String> = Vec::new();
        let mut j: usize = 0;
        while j < row.len()
            invariant
                j <= row@.len(),
                rv[i as int] == strings_view(row@),
                i < rv.len(),
                ti < row@.len(),
                ci < row@.len(),
                strings_view(taboo@) == taboo_of_row(
                    rv[i as int].take(j as int),
                    ti as int,
                    ci as int,
                ),
            decreases row@.len() - j,
        {
            proof {
                let prefix = rv[i as int].take(j as int + 1);
                assert(prefix.drop_last() =~= rv[i as int].take(j as int));
                assert(prefix.last() == rv[i as int][j as int]);
            }
            if j != ti && j != ci {
                let cell = row[j].clone();
                taboo.push(cell);
                proof {
                    assert(strings_view(taboo@) =~= taboo_of_row(
                        rv[i as int].take(j as int + 1),
                        ti as int,
                        ci as int,
                    ));
                }
            } else {
                proof {
                    assert(strings_view(taboo@) =~= taboo_of_row(
                        rv[i as int].take(j as int + 1),
                        ti as int,
                        ci as int,
                    ));
                }
            }
            j += 1;
        }
        let w = Word {
            text: row[ti].clone(),
            complexity: cx,
            taboo_words: taboo,
            selected_taboo_words: Vec::new(),
        };
        proof {
            let rowv = rv[i as int];
            assert(rowv.take(rowv.len() as int) =~= rowv);
            assert(row_ok(hv, rowv));
            assert(strings_view(Seq::<String>::empty()) =~= Seq::<Seq<char>>::empty());
            assert(w@ == word_of_row(hv, rowv));
        }
        match cx {
            Complexity::Easy => { easy.push(w) },
            Complexity::Medium => { medium.push(w) },
            Complexity::Hard => { hard.push(w) },
        }
        proof {
            let upto = rv.take(i as int + 1);
            assert(upto.drop_last() =~= rv.take(i as int));
            assert(upto.last() == rv[i as int]);
            assert(rows_ok(hv, upto)) by {
                assert(forall|k: int|
                    0 <= k < upto.len() - 1 ==> upto[k] == rv.take(i as int)[k]);
            }
            assert(words_view(easy@) =~= bucket_rows(hv, upto, Complexity::Easy));
            assert(words_view(medium@) =~= bucket_rows(hv, upto, Complexity::Medium));
            assert(words_view(hard@) =~= bucket_rows(hv, upto, Complexity::Hard));
        }
        i += 1;
    }
    proof {
        assert(rv.take(rv.len() as int) =~= rv);
    }
    if easy.len() == 0 || medium.len() == 0 || hard.len() == 0 {
        return Err(WordLoadError::EmptyBucket);
    }
    Ok(WordCatalog { easy, medium, hard })
}

/// Loads the catalog from tabular text.  The reading of the table itself
/// is the csv crate's, named `csv_table_of`; everything after the parsed
/// rows is fixed by `catalog_outcome` and verified in
/// `catalog_from_records`.
pub fn load_catalog(data: &str) -> (r: Result<WordCatalog, WordLoadError>)
    ensures
        r matches Ok(cat) ==> cat.wf(),
        csv_table_of(data@) is None ==> r == Err::<WordCatalog, WordLoadError>(
            WordLoadError::BadTable,
        ),
        csv_table_of(data@) matches Some(table) ==> catalog_outcome(table.0, table.1, r),
{
    match read_csv_table(data) {
        Some((headers, rows)) => catalog_from_records(headers, rows),
        None => Err(WordLoadError::BadTable),
    }
}

} // verus!
