//! Source maps: reading a decoded document, looking positions up in it.

use vstd::prelude::*;
use vstd::string::*;

use super::mappings::{checked_total, decode_mappings, OriginalFields, ParseBudget, Segment};
use super::{
    mappings, BasicModel, GeneratedPosition, MapModel, OriginalModel, OriginalPosition, RawMap,
    RawModel, RawSection, SectionsState, SourceMapError, SourceMapLimits,
};
use crate::digest::sha256;
use crate::text::{clone_optional, clone_optionals, clone_texts};
use crate::{digest, text};

verus! {

/// A source map whose rules were checked.
#[derive(Debug)]
pub struct SourceMap {
    digest: [u8; 32],
    kind: MapKind,
    segment_count: usize,
}

#[derive(Debug)]
enum MapKind {
    Basic(BasicMap),
    Indexed(Vec<Section>),
}

#[derive(Debug)]
struct BasicMap {
    sources: Vec<Option<String>>,
    source_root: Option<String>,
    names: Vec<String>,
    lines: Vec<Vec<Segment>>,
}

#[derive(Debug)]
struct Section {
    offset: GeneratedPosition,
    map: SourceMap,
}

type Group = Option<(GeneratedPosition, Vec<OriginalPosition>)>;

spec fn group_view(group: Group) -> Option<(GeneratedPosition, Seq<OriginalModel>)> {
    match group {
        None => None,
        Some((position, positions)) => Some((position, super::position_views(positions@))),
    }
}

impl BasicMap {
    spec fn model(&self) -> BasicModel {
        BasicModel {
            sources: text::optional_views(self.sources@),
            source_root: text::optional_view(self.source_root),
            names: text::views(self.names@),
            lines: mappings::line_views(self.lines@),
        }
    }
}

spec fn section_maps(sections: Seq<Section>) -> Seq<(GeneratedPosition, MapModel)>
    decreases sections,
{
    if sections.len() == 0 {
        Seq::empty()
    } else {
        section_maps(sections.drop_last()).push(
            (sections.last().offset, sections.last().map.model()),
        )
    }
}

proof fn lemma_section_maps(sections: Seq<Section>)
    ensures
        section_maps(sections).len() == sections.len(),
        forall|i: int|
            0 <= i < sections.len() ==> #[trigger] section_maps(sections)[i] == (
                sections[i].offset,
                sections[i].map.model(),
            ),
    decreases sections.len(),
{
    if sections.len() > 0 {
        lemma_section_maps(sections.drop_last());
    }
}

impl View for SourceMap {
    type V = MapModel;

    closed spec fn view(&self) -> MapModel {
        self.model()
    }
}

impl SourceMap {
    spec fn model(&self) -> MapModel
        decreases self,
    {
        match self.kind {
            MapKind::Basic(map) => MapModel::Basic(map.model()),
            MapKind::Indexed(sections) => MapModel::Indexed(section_maps(sections@)),
        }
    }

    /// The digest of the document that the map was read from.
    pub closed spec fn digest_spec(&self) -> Seq<u8> {
        self.digest@
    }

    /// A digest has 32 bytes.
    pub proof fn lemma_digest_length(&self)
        ensures
            self.digest_spec().len() == 32,
    {
    }

    #[verifier::type_invariant]
    spec fn is_wf(self) -> bool {
        super::map_is_wf(self.model()) && self.segment_count == super::segment_total(self.model())
    }

    /// Reads a source map document: `raw` is what the JSON text `bytes`
    /// decodes to.
    pub fn parse(bytes: &[u8], raw: &RawMap, limits: SourceMapLimits) -> (r: Result<
        SourceMap,
        SourceMapError,
    >)
        ensures
            bytes@.len() > limits.max_bytes ==> r == Err::<SourceMap, SourceMapError>(
                SourceMapError::ByteLimit,
            ),
            bytes@.len() <= limits.max_bytes ==> match (
                r,
                super::map_of(raw.model(), limits, super::no_budget(), 0),
            ) {
                (Ok(map), Ok((model, _))) => map@ == model && map.digest_spec()
                    == digest::sha256_of(bytes@) && super::map_is_wf(map@),
                (Err(a), Err(b)) => a == b,
                _ => false,
            },
    {
        if bytes.len() > limits.max_bytes {
            return Err(SourceMapError::ByteLimit);
        }
        let mut budget = ParseBudget { sources: 0, names: 0, lines: 0, segments: 0, sections: 0 };
        match parse_raw(raw, &limits, &mut budget, 0) {
            Err(error) => Err(error),
            Ok(map) => {
                proof {
                    use_type_invariant(&map);
                }
                Ok(
                    SourceMap {
                        digest: sha256(bytes),
                        kind: map.kind,
                        segment_count: map.segment_count,
                    },
                )
            },
        }
    }

    /// The SHA-256 digest of the document.
    pub fn digest(&self) -> (digest: [u8; 32])
        ensures
            digest@ == self.digest_spec(),
    {
        self.digest
    }

    /// The number of segments.
    pub fn segment_count(&self) -> (count: usize)
        ensures
            count == super::segment_total(self@),
    {
        proof {
            use_type_invariant(self);
        }
        self.segment_count
    }

    /// The origin of a position, where there is exactly one.
    pub fn lookup(&self, generated: GeneratedPosition) -> (original: Option<OriginalPosition>)
        ensures
            original is Some == (super::originals_at(self@, generated).len() == 1),
            original matches Some(position) ==> position@ == super::originals_at(
                self@,
                generated,
            )[0],
    {
        let mut positions = self.lookup_all(generated);
        proof {
            super::lemma_position_views(positions@);
        }
        if positions.len() == 1 {
            positions.pop()
        } else {
            None
        }
    }

    /// Every origin at the greatest mapped position not exceeding
    /// `generated`. Origins that share a position are all kept.
    pub fn lookup_all(&self, generated: GeneratedPosition) -> (positions: Vec<OriginalPosition>)
        ensures
            super::position_views(positions@) == super::originals_at(self@, generated),
    {
        match self.lookup_group(generated) {
            None => {
                let none: Vec<OriginalPosition> = Vec::new();
                assert(super::position_views(none@) =~= Seq::empty());
                none
            },
            Some((_, positions)) => positions,
        }
    }

    /// The origin of a position through two maps, where there is exactly one.
    pub fn compose_lookup(
        outer: &SourceMap,
        inner: &SourceMap,
        generated: GeneratedPosition,
    ) -> (original: Option<OriginalPosition>)
        ensures
            original is Some == (super::composed_at(outer@, inner@, generated).len() == 1),
            original matches Some(position) ==> position@ == super::composed_at(
                outer@,
                inner@,
                generated,
            )[0],
    {
        let mut positions = Self::compose_lookup_all(outer, inner, generated);
        proof {
            super::lemma_position_views(positions@);
        }
        if positions.len() == 1 {
            positions.pop()
        } else {
            None
        }
    }

    /// Every origin of a position through two maps. The caller chooses the
    /// maps; nothing is inferred from the intermediate source.
    pub fn compose_lookup_all(
        outer: &SourceMap,
        inner: &SourceMap,
        generated: GeneratedPosition,
    ) -> (positions: Vec<OriginalPosition>)
        ensures
            super::position_views(positions@) == super::composed_at(outer@, inner@, generated),
    {
        let mut output: Vec<OriginalPosition> = Vec::new();
        let intermediate = outer.lookup_all(generated);
        let ghost models = super::position_views(intermediate@);
        let mut i: usize = 0;
        assert(super::position_views(output@) =~= Seq::empty());
        while i < intermediate.len()
            invariant
                i <= intermediate@.len(),
                models == super::position_views(intermediate@),
                super::position_views(output@) == super::composed(models, inner@, i as int),
            decreases intermediate@.len() - i,
        {
            let middle = &intermediate[i];
            let found = inner.lookup_all(
                GeneratedPosition { line: middle.line, column: middle.column },
            );
            let ghost before = super::position_views(output@);
            let ghost added = super::position_views(found@).map_values(
                |position: OriginalModel| super::renamed(models[i as int], position),
            );
            let mut j: usize = 0;
            assert(before + added.take(0) =~= before);
            while j < found.len()
                invariant
                    i < intermediate@.len(),
                    j <= found@.len(),
                    models == super::position_views(intermediate@),
                    *middle == intermediate@[i as int],
                    added == super::position_views(found@).map_values(
                        |position: OriginalModel| super::renamed(models[i as int], position),
                    ),
                    super::position_views(output@) == before + added.take(j as int),
                decreases found@.len() - j,
            {
                let mut original = found[j].clone();
                if original.name.is_none() {
                    original.name = clone_optional(&middle.name);
                    original.name_index = middle.name_index;
                }
                let ghost earlier = output@;
                output.push(original);
                j += 1;
                proof {
                    assert(super::position_views(output@) =~= super::position_views(earlier).push(
                        original@,
                    ));
                    assert(models[i as int] == middle@);
                    assert(original@ == added[j - 1]);
                    assert(before + added.take(j as int) =~= (before + added.take(j - 1)).push(
                        added[j - 1],
                    ));
                }
            }
            proof {
                assert(added.take(j as int) =~= added);
            }
            i += 1;
        }
        output
    }

    fn lookup_group(&self, generated: GeneratedPosition) -> (group: Group)
        ensures
            group_view(group) == super::group_at(self.model(), generated),
        decreases self,
    {
        proof {
            use_type_invariant(self);
        }
        match &self.kind {
            MapKind::Basic(map) => map.lookup_group(generated),
            MapKind::Indexed(sections) => {
                let ghost models = section_maps(sections@);
                proof {
                    lemma_section_maps(sections@);
                }
                let mut count: usize = sections.len();
                assert(models.take(count as int) =~= models);
                while count > 0 && !position_at_most(sections[count - 1].offset, generated)
                    invariant
                        count <= sections@.len(),
                        models == section_maps(sections@),
                        models.len() == sections@.len(),
                        forall|i: int|
                            0 <= i < sections@.len() ==> #[trigger] models[i] == (
                                sections@[i].offset,
                                sections@[i].map.model(),
                            ),
                        super::sections_upto(models, generated) == super::sections_upto(
                            models.take(count as int),
                            generated,
                        ),
                    decreases count,
                {
                    assert(models.take(count as int).drop_last() =~= models.take(count - 1));
                    assert(models.take(count as int).last() == models[count - 1]);
                    count -= 1;
                }
                proof {
                    if count > 0 {
                        assert(models.take(count as int).last() == models[count - 1]);
                    }
                }
                let mut best: Group = None;
                let ghost whole = super::group_in_sections(
                    models,
                    super::sections_upto(models, generated),
                    generated,
                    None,
                );
                while count > 0
                    invariant
                        count <= sections@.len(),
                        self.kind == MapKind::Indexed(*sections),
                        models == section_maps(sections@),
                        models.len() == sections@.len(),
                        forall|i: int|
                            0 <= i < sections@.len() ==> #[trigger] models[i] == (
                                sections@[i].offset,
                                sections@[i].map.model(),
                            ),
                        whole == super::group_in_sections(
                            models,
                            count as nat,
                            generated,
                            group_view(best),
                        ),
                        whole == super::group_at(self.model(), generated),
                    decreases count,
                {
                    let section = &sections[count - 1];
                    assert(models[count - 1] == (section.offset, section.map.model()));
                    count -= 1;
                    let local = match section_query(section.offset, generated) {
                        None => {
                            continue;
                        },
                        Some(local) => local,
                    };
                    assert(decreases_to!(self => section.map));
                    let (found, positions) = match section.map.lookup_group(local) {
                        None => {
                            continue;
                        },
                        Some(found) => found,
                    };
                    let global = match add_section_offset(section.offset, found) {
                        Err(_) => {
                            continue;
                        },
                        Ok(global) => global,
                    };
                    best = match best {
                        None => Some((global, positions)),
                        Some((top, kept)) => {
                            if global == top {
                                let mut kept = kept;
                                let mut positions = positions;
                                let ghost first = kept@;
                                let ghost second = positions@;
                                kept.append(&mut positions);
                                assert(super::position_views(kept@) =~= super::position_views(first)
                                    + super::position_views(second));
                                Some((top, kept))
                            } else if position_at_most(top, global) {
                                Some((global, positions))
                            } else {
                                return Some((top, kept));
                            }
                        },
                    };
                }
                best
            },
        }
    }

    fn last_generated_position(&self) -> (r: Result<Option<GeneratedPosition>, SourceMapError>)
        ensures
            r == super::last_position(self.model()),
        decreases self,
    {
        match &self.kind {
            MapKind::Basic(map) => Ok(map.last_generated_position()),
            MapKind::Indexed(sections) => {
                let ghost models = section_maps(sections@);
                proof {
                    lemma_section_maps(sections@);
                }
                let mut count: usize = sections.len();
                while count > 0
                    invariant
                        count <= sections@.len(),
                        self.kind == MapKind::Indexed(*sections),
                        models == section_maps(sections@),
                        models.len() == sections@.len(),
                        forall|i: int|
                            0 <= i < sections@.len() ==> #[trigger] models[i] == (
                                sections@[i].offset,
                                sections@[i].map.model(),
                            ),
                        super::last_position(self.model()) == super::last_in_sections(
                            models,
                            count as nat,
                        ),
                    decreases count,
                {
                    let section = &sections[count - 1];
                    assert(models[count - 1] == (section.offset, section.map.model()));
                    assert(decreases_to!(self => section.map));
                    match section.map.last_generated_position() {
                        Err(error) => {
                            return Err(error);
                        },
                        Ok(None) => {},
                        Ok(Some(local)) => match add_section_offset(section.offset, local) {
                            Err(error) => {
                                return Err(error);
                            },
                            Ok(global) => {
                                return Ok(Some(global));
                            },
                        },
                    }
                    count -= 1;
                }
                Ok(None)
            },
        }
    }
}

fn position_at_most(left: GeneratedPosition, right: GeneratedPosition) -> (r: bool)
    ensures
        r == super::at_most(left, right),
{
    left.line < right.line || (left.line == right.line && left.column <= right.column)
}

fn section_query(offset: GeneratedPosition, query: GeneratedPosition) -> (local: Option<
    GeneratedPosition,
>)
    ensures
        local == super::into_section(offset, query),
{
    if query.line < offset.line {
        None
    } else if query.line > offset.line {
        Some(GeneratedPosition { line: query.line - offset.line, column: query.column })
    } else if query.column < offset.column {
        None
    } else {
        Some(GeneratedPosition { line: 0, column: query.column - offset.column })
    }
}

fn add_section_offset(offset: GeneratedPosition, local: GeneratedPosition) -> (r: Result<
    GeneratedPosition,
    SourceMapError,
>)
    ensures
        r == super::out_of_section(offset, local),
{
    let line: u32 = match offset.line.checked_add(local.line) {
        None => {
            return Err(SourceMapError::SectionLineOverflow);
        },
        Some(line) => line,
    };
    if local.line != 0 {
        return Ok(GeneratedPosition { line, column: local.column });
    }
    match offset.column.checked_add(local.column) {
        None => Err(SourceMapError::SectionColumnOverflow),
        Some(column) => Ok(GeneratedPosition { line, column }),
    }
}

proof fn lemma_columns_upto(line: Seq<Segment>, column: u32, count: int)
    requires
        0 <= count <= line.len(),
        forall|i: int| 0 <= i < count ==> (#[trigger] line[i]).generated_column <= column,
        forall|i: int| count <= i < line.len() ==> (#[trigger] line[i]).generated_column > column,
    ensures
        super::columns_upto(line, column) == count,
    decreases line.len(),
{
    if line.len() > 0 && line.last().generated_column > column {
        assert(count < line.len());
        lemma_columns_upto(line.drop_last(), column, count);
    }
}

fn count_upto(line: &Vec<Segment>, column: u32) -> (count: usize)
    requires
        mappings::is_sorted(line@),
    ensures
        count == super::columns_upto(line@, column),
        count <= line@.len(),
{
    let mut low: usize = 0;
    let mut high: usize = line.len();
    while low < high
        invariant
            mappings::is_sorted(line@),
            low <= high <= line@.len(),
            forall|i: int| 0 <= i < low ==> (#[trigger] line@[i]).generated_column <= column,
            forall|i: int|
                high <= i < line@.len() ==> (#[trigger] line@[i]).generated_column > column,
        decreases high - low,
    {
        let middle: usize = low + (high - low) / 2;
        if line[middle].generated_column <= column {
            low = middle + 1;
        } else {
            high = middle;
        }
    }
    proof {
        lemma_columns_upto(line@, column, low as int);
    }
    low
}

impl BasicMap {
    fn original(&self, original: OriginalFields) -> (position: OriginalPosition)
        requires
            original.source < self.sources@.len(),
            original.name matches Some(name) ==> name < self.names@.len(),
        ensures
            position@ == super::original_at(self.model(), original),
    {
        OriginalPosition {
            source: clone_optional(&self.sources[original.source as usize]),
            source_root: clone_optional(&self.source_root),
            source_index: original.source,
            line: original.line,
            column: original.column,
            name: match original.name {
                Some(name) => Some(self.names[name as usize].clone()),
                None => None,
            },
            name_index: original.name,
        }
    }

    fn originals(&self, line: &Vec<Segment>, start: usize, end: usize) -> (positions: Vec<
        OriginalPosition,
    >)
        requires
            start <= end <= line@.len(),
            mappings::indexes_are_in(
                line@,
                self.sources@.len() as int,
                self.names@.len() as int,
            ),
        ensures
            super::position_views(positions@) == super::originals_between(
                self.model(),
                line@,
                start as int,
                end as int,
            ),
    {
        let mut positions: Vec<OriginalPosition> = Vec::new();
        let mut i: usize = start;
        assert(super::position_views(positions@) =~= Seq::empty());
        while i < end
            invariant
                start <= i <= end <= line@.len(),
                mappings::indexes_are_in(
                    line@,
                    self.sources@.len() as int,
                    self.names@.len() as int,
                ),
                super::position_views(positions@) == super::originals_between(
                    self.model(),
                    line@,
                    start as int,
                    i as int,
                ),
            decreases end - i,
        {
            if let Some(original) = line[i].original {
                let position = self.original(original);
                let ghost before = positions@;
                positions.push(position);
                assert(super::position_views(positions@) =~= super::position_views(before).push(
                    position@,
                ));
            }
            i += 1;
        }
        positions
    }

    fn lookup_group(&self, generated: GeneratedPosition) -> (group: Group)
        requires
            super::map_is_wf(MapModel::Basic(self.model())),
        ensures
            group_view(group) == super::basic_group(self.model(), generated),
    {
        let ghost model = self.model();
        assert(model.lines.len() == self.lines@.len());
        let mut line: usize = if (generated.line as usize) < self.lines.len() {
            generated.line as usize
        } else {
            self.lines.len() - 1
        };
        loop
            invariant
                line < self.lines@.len(),
                line <= generated.line,
                model == self.model(),
                super::map_is_wf(MapModel::Basic(model)),
                super::basic_group(model, generated) == super::group_from(
                    model,
                    generated,
                    line as int,
                ),
            decreases line,
        {
            let segments = &self.lines[line];
            assert(model.lines[line as int] == segments@);
            let end: usize = if line == generated.line as usize {
                count_upto(segments, generated.column)
            } else {
                segments.len()
            };
            if end > 0 {
                let column: u32 = segments[end - 1].generated_column;
                let mut start: usize = end - 1;
                while start > 0 && segments[start - 1].generated_column == column
                    invariant
                        start < end <= segments@.len(),
                        segments@[start as int].generated_column == column,
                        super::run_start(segments@, end as int) == super::run_start(
                            segments@,
                            start + 1,
                        ),
                    decreases start,
                {
                    start -= 1;
                }
                let positions = self.originals(segments, start, end);
                return Some((GeneratedPosition { line: line as u32, column }, positions));
            }
            if line == 0 {
                assert(super::group_from(model, generated, -1) is None);
                return None;
            }
            line -= 1;
        }
    }

    fn last_generated_position(&self) -> (last: Option<GeneratedPosition>)
        ensures
            last == super::last_on_lines(self.model().lines, self.lines@.len() as int),
    {
        let ghost lines = self.model().lines;
        let mut count: usize = self.lines.len();
        while count > 0
            invariant
                count <= self.lines@.len(),
                lines == mappings::line_views(self.lines@),
                super::last_on_lines(lines, self.lines@.len() as int) == super::last_on_lines(
                    lines,
                    count as int,
                ),
            decreases count,
        {
            let segments = &self.lines[count - 1];
            assert(lines[count - 1] == segments@);
            if segments.len() > 0 {
                return Some(
                    GeneratedPosition {
                        line: (count - 1) as u32,
                        column: segments[segments.len() - 1].generated_column,
                    },
                );
            }
            count -= 1;
        }
        None
    }
}

fn list_reaches(list: &Vec<u32>, bound: usize) -> (r: bool)
    ensures
        r == super::some_reaches(list@, bound as int),
{
    let mut i: usize = 0;
    while i < list.len()
        invariant
            i <= list@.len(),
            forall|j: int| 0 <= j < i ==> #[trigger] list@[j] < bound,
        decreases list@.len() - i,
    {
        if list[i] as usize >= bound {
            return true;
        }
        i += 1;
    }
    false
}

fn ignores_beyond(raw: &RawMap, bound: usize) -> (r: bool)
    ensures
        r == super::some_reaches(super::ignored(raw.model()), bound as int),
{
    match &raw.ignore_list {
        Some(list) => list_reaches(list, bound),
        None => match &raw.x_google_ignore_list {
            Some(list) => list_reaches(list, bound),
            None => false,
        },
    }
}

fn parse_basic(
    raw: &RawMap,
    mapping_text: &String,
    limits: &SourceMapLimits,
    budget: &mut ParseBudget,
) -> (r: Result<SourceMap, SourceMapError>)
    ensures
        match (r, super::basic_of(raw.model(), mapping_text@, *limits, *old(budget))) {
            (Ok(map), Ok((model, used))) => map.model() == model && *final(budget) == used,
            (Err(a), Err(b)) => a == b,
            _ => false,
        },
{
    let sources = match &raw.sources {
        None => {
            return Err(SourceMapError::MissingSources);
        },
        Some(sources) => sources,
    };
    if let Some(content) = &raw.sources_content {
        if !limits.allow_sources_content {
            return Err(SourceMapError::ContentNotPermitted);
        }
        if content.len() > sources.len() {
            return Err(SourceMapError::ContentTooLong);
        }
    }
    if ignores_beyond(raw, sources.len()) {
        return Err(SourceMapError::IgnoreListRange);
    }
    budget.sources = match checked_total(budget.sources, sources.len(), limits.max_sources) {
        Err(error) => {
            return Err(error);
        },
        Ok(total) => total,
    };
    budget.names = match checked_total(budget.names, raw.names.len(), limits.max_names) {
        Err(error) => {
            return Err(error);
        },
        Ok(total) => total,
    };
    let lines = match decode_mappings(
        mapping_text.as_str().as_bytes(),
        sources.len(),
        raw.names.len(),
        limits,
        budget,
    ) {
        Err(error) => {
            return Err(error);
        },
        Ok(lines) => lines,
    };
    let count = count_segments(&lines);
    Ok(
        SourceMap {
            digest: [0; 32],
            kind: MapKind::Basic(
                BasicMap {
                    sources: clone_optionals(sources),
                    source_root: clone_optional(&raw.source_root),
                    names: clone_texts(&raw.names),
                    lines,
                },
            ),
            segment_count: count,
        },
    )
}

fn count_segments(lines: &Vec<Vec<Segment>>) -> (count: usize)
    requires
        mappings::segments_on(mappings::line_views(lines@)) <= usize::MAX,
    ensures
        count == mappings::segments_on(mappings::line_views(lines@)),
{
    let ghost views = mappings::line_views(lines@);
    let mut count: usize = 0;
    let mut i: usize = 0;
    assert(views.take(0) =~= Seq::empty());
    while i < lines.len()
        invariant
            i <= lines@.len(),
            views == mappings::line_views(lines@),
            mappings::segments_on(views) <= usize::MAX,
            count == mappings::segments_on(views.take(i as int)),
        decreases lines@.len() - i,
    {
        proof {
            assert(views.take(i + 1).drop_last() =~= views.take(i as int));
            assert(views.take(i + 1).last() == lines@[i as int]@);
            lemma_segments_on_prefix(views, i + 1);
        }
        count += lines[i].len();
        i += 1;
    }
    assert(views.take(i as int) =~= views);
    count
}

proof fn lemma_segments_on_prefix(lines: Seq<Seq<Segment>>, count: int)
    requires
        0 <= count <= lines.len(),
    ensures
        mappings::segments_on(lines.take(count)) <= mappings::segments_on(lines),
    decreases lines.len() - count,
{
    if count < lines.len() {
        lemma_segments_on_prefix(lines, count + 1);
        assert(lines.take(count + 1).drop_last() =~= lines.take(count));
    } else {
        assert(lines.take(count) =~= lines);
    }
}

fn parse_raw(
    raw: &RawMap,
    limits: &SourceMapLimits,
    budget: &mut ParseBudget,
    depth: usize,
) -> (r: Result<SourceMap, SourceMapError>)
    ensures
        match (r, super::map_of(raw.model(), *limits, *old(budget), depth)) {
            (Ok(map), Ok((model, used))) => map.model() == model && *final(budget) == used,
            (Err(a), Err(b)) => a == b,
            _ => false,
        },
    decreases raw,
{
    if depth > limits.max_depth || raw.version != 3 {
        return Err(SourceMapError::UnsupportedVersionOrDepth);
    }
    match (&raw.mappings, &raw.sections) {
        (Some(mapping_text), None) => parse_basic(raw, mapping_text, limits, budget),
        (None, Some(sections)) => {
            proof {
                super::lemma_section_models(sections@);
            }
            budget.sections = match checked_total(
                budget.sections,
                sections.len(),
                limits.max_sections,
            ) {
                Err(error) => {
                    return Err(error);
                },
                Ok(total) => total,
            };
            let inner: usize = if depth < usize::MAX {
                depth + 1
            } else {
                depth
            };
            parse_sections(raw, sections, limits, budget, inner)
        },
        _ => Err(SourceMapError::NotExactlyOneBody),
    }
}

fn parse_sections(
    raw: &RawMap,
    sections: &Vec<RawSection>,
    limits: &SourceMapLimits,
    budget: &mut ParseBudget,
    depth: usize,
) -> (r: Result<SourceMap, SourceMapError>)
    requires
        raw.sections == Some(*sections),
    ensures
        match (
            r,
            super::sections_of(
                super::section_models(sections@),
                sections@.len(),
                *limits,
                depth,
                *old(budget),
            ),
        ) {
            (Ok(map), Ok(state)) => map.model() == MapModel::Indexed(state.maps) && *final(budget)
                == state.budget,
            (Err(a), Err(b)) => a == b,
            _ => false,
        },
    decreases raw, 0nat,
{
    let ghost models = super::section_models(sections@);
    let ghost start = *budget;
    proof {
        super::lemma_section_models(sections@);
    }
    let mut maps: Vec<Section> = Vec::new();
    let mut last_mapping: Option<GeneratedPosition> = None;
    let mut segment_count: usize = 0;
    let mut i: usize = 0;
    while i < sections.len()
        invariant
            i <= sections@.len(),
            maps@.len() == i,
            raw.sections == Some(*sections),
            *old(budget) == start,
            models == super::section_models(sections@),
            models.len() == sections@.len(),
            forall|k: int|
                0 <= k < sections@.len() ==> #[trigger] models[k] == (
                    sections@[k].offset,
                    sections@[k].map.model(),
                ),
            forall|k: int| 0 <= k < i ==> (#[trigger] maps@[k]).offset == sections@[k].offset,
            super::sections_of(models, i as nat, *limits, depth, start) == Ok::<
                SectionsState,
                SourceMapError,
            >(
                SectionsState {
                    maps: section_maps(maps@),
                    last_mapping,
                    segments: segment_count as nat,
                    budget: *budget,
                },
            ),
            super::sections_are_wf(section_maps(maps@), i as nat),
            super::section_total(section_maps(maps@), i as nat) == segment_count,
        decreases sections@.len() - i,
    {
        let offset = sections[i].offset;
        proof {
            lemma_sections_of_error(models, i + 1, *limits, depth, start);
            lemma_section_maps(maps@);
        }
        if i > 0 && !position_at_most(sections[i - 1].offset, offset) {
            return Err(SourceMapError::SectionsUnordered);
        }
        if let Some(last) = last_mapping {
            if !position_at_most(last, offset) {
                return Err(SourceMapError::SectionsOverlap);
            }
        }
        assert(decreases_to!(raw => raw.sections));
        assert(decreases_to!(raw.sections => raw.sections->0));
        assert(decreases_to!(raw.sections->0 => raw.sections->0@));
        assert(decreases_to!(raw.sections->0@ => raw.sections->0@[i as int]));
        assert(decreases_to!(raw => sections@[i as int].map));
        let map = match parse_raw(&sections[i].map, limits, budget, depth) {
            Err(error) => {
                return Err(error);
            },
            Ok(map) => map,
        };
        proof {
            use_type_invariant(&map);
        }
        match map.last_generated_position() {
            Err(error) => {
                return Err(error);
            },
            Ok(None) => {},
            Ok(Some(local)) => match add_section_offset(offset, local) {
                Err(error) => {
                    return Err(error);
                },
                Ok(global) => {
                    last_mapping = Some(global);
                },
            },
        }
        segment_count = match segment_count.checked_add(map.segment_count) {
            None => {
                return Err(SourceMapError::SegmentCountOverflow);
            },
            Some(total) => total,
        };
        let ghost before = maps@;
        maps.push(Section { offset, map });
        i += 1;
        proof {
            assert(maps@.drop_last() =~= before);
            lemma_sections_prefix(section_maps(before), section_maps(maps@), before.len());
            lemma_section_maps(maps@);
            assert(section_maps(maps@)[i - 1] == (offset, maps@[i - 1].map.model()));
        }
    }
    proof {
        lemma_section_maps(maps@);
    }
    Ok(SourceMap { digest: [0; 32], kind: MapKind::Indexed(maps), segment_count })
}

/// An error of the first sections is the error of all of them.
proof fn lemma_sections_of_error(
    sections: Seq<(GeneratedPosition, RawModel)>,
    count: int,
    limits: SourceMapLimits,
    depth: usize,
    budget: ParseBudget,
)
    requires
        0 <= count <= sections.len(),
    ensures
        super::sections_of(sections, count as nat, limits, depth, budget) matches Err(error)
            ==> super::sections_of(sections, sections.len(), limits, depth, budget) == Err::<
            SectionsState,
            SourceMapError,
        >(error),
    decreases sections.len() - count,
{
    if count < sections.len() {
        lemma_sections_of_error(sections, count + 1, limits, depth, budget);
    }
}

/// What holds of the first sections does not depend on the later ones.
proof fn lemma_sections_prefix(
    short: Seq<(GeneratedPosition, MapModel)>,
    long: Seq<(GeneratedPosition, MapModel)>,
    count: nat,
)
    requires
        count <= short.len() <= long.len(),
        short =~= long.take(short.len() as int),
    ensures
        super::sections_are_wf(short, count) == super::sections_are_wf(long, count),
        super::section_total(short, count) == super::section_total(long, count),
    decreases count,
{
    if count > 0 {
        lemma_sections_prefix(short, long, (count - 1) as nat);
        assert(short[count - 1] == long[count - 1]);
        if count >= 2 {
            assert(short[count - 2] == long[count - 2]);
        }
    }
}

/// The tables of a map with one `mappings` text.
pub struct BasicTables<'a> {
    pub sources: &'a Vec<Option<String>>,
    pub source_root: &'a Option<String>,
    pub names: &'a Vec<String>,
    pub lines: &'a Vec<Vec<Segment>>,
}

impl<'a> BasicTables<'a> {
    /// The tables seen as a model.
    pub open spec fn model(&self) -> BasicModel {
        BasicModel {
            sources: text::optional_views(self.sources@),
            source_root: text::optional_view(*self.source_root),
            names: text::views(self.names@),
            lines: mappings::line_views(self.lines@),
        }
    }
}

impl SourceMap {
    /// The tables of a basic map.
    pub fn tables(&self) -> (r: Option<BasicTables<'_>>)
        ensures
            match (r, self@) {
                (Some(tables), MapModel::Basic(model)) => tables.model() == model,
                (None, MapModel::Indexed(_)) => true,
                _ => false,
            },
    {
        match &self.kind {
            MapKind::Basic(map) => Some(
                BasicTables {
                    sources: &map.sources,
                    source_root: &map.source_root,
                    names: &map.names,
                    lines: &map.lines,
                },
            ),
            MapKind::Indexed(_) => None,
        }
    }

    /// A basic map of given tables.
    pub(crate) fn from_tables(
        digest: [u8; 32],
        sources: Vec<Option<String>>,
        source_root: Option<String>,
        names: Vec<String>,
        lines: Vec<Vec<Segment>>,
        segment_count: usize,
    ) -> (map: SourceMap)
        requires
            ({
                let model = BasicModel {
                    sources: text::optional_views(sources@),
                    source_root: text::optional_view(source_root),
                    names: text::views(names@),
                    lines: mappings::line_views(lines@),
                };
                super::map_is_wf(MapModel::Basic(model)) && segment_count
                    == mappings::segments_on(model.lines)
            }),
        ensures
            map@ == MapModel::Basic(
                (BasicModel {
                    sources: text::optional_views(sources@),
                    source_root: text::optional_view(source_root),
                    names: text::views(names@),
                    lines: mappings::line_views(lines@),
                }),
            ),
            map.digest_spec() == digest@,
    {
        SourceMap {
            digest,
            kind: MapKind::Basic(BasicMap { sources, source_root, names, lines }),
            segment_count,
        }
    }
}

} // verus!
