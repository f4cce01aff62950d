//! The vector indexes, with the arithmetic on floats that they take as given.

use mara::api::Storage;
use mara::change::ChangeBatch;
use mara::coarse::{
    ceil_sqrt, child_seed, members_of, plan_build, rerank_target, BuildPlan, CoarseDistances, CoarseQuantizer, KmeansResult, Leaf,
};
use mara::columns::FieldType;
use mara::document::{ChunkInput, PutDocumentInput};
use mara::fields::{PayloadRow, PayloadValue};
use mara::filter::{Filter, Scalar};
use mara::flat::{scan_all, FlatIndex};
use mara::grouping::apply_doc_grouping;
use mara::hit::{IndexError, IndexResult, SearchHit, SearchResult};
use mara::ids::{DocId, PrincipalId, RowId, SessionId};
use mara::ivf::{IvfIndex, IvfParams};
use mara::ivf_pq::IvfPqIndex;
use mara::kmeans::{assign, cluster_count, draws_by_weight, nearest, Rounds};
use mara::live::{LiveIndex, LiveIndexParams};
use mara::lsh::{bucket_key, LshError, LshIndex, LshParams};
use mara::model::{ChunkSpec, DistanceMetric, ModelFingerprint, Principal, RequestCtx, Role, Source};
use mara::opq::{OpqParams, OpqRotation};
use mara::order::stable_order;
use mara::params::SearchParams;
use mara::payload::{FilterMask, PayloadSchema};
use mara::pq::{check_params, divisors, split, subspace_seed, PqCodebook, PqError, PqParams};
use mara::shortlist::Shortlist;
use mara::state::Row;
use nalgebra::{DMatrix, SVD};
use rand::distributions::{Distribution, WeightedIndex};
use rand::{Rng, SeedableRng};
use rand_chacha::ChaCha8Rng;
use roaring::RoaringBitmap;
use std::collections::{HashMap, HashSet};
use wide::f32x8;

const LANES: usize = 8;

/// The bit patterns in which the library holds a vector.
fn bits_of(v: &[f32]) -> Vec<u32> {
    v.iter().map(|x| x.to_bits()).collect()
}

/// The vector that bit patterns stand for.
fn floats_of(bits: &[u32]) -> Vec<f32> {
    bits.iter().map(|b| f32::from_bits(*b)).collect()
}

fn lanes(v: &[f32], chunk: usize) -> f32x8 {
    let mut lanes = [0.0f32; LANES];
    lanes.copy_from_slice(&v[chunk * LANES..(chunk + 1) * LANES]);
    f32x8::new(lanes)
}

fn dot(a: &[f32], b: &[f32]) -> f32 {
    let chunks = a.len() / LANES;
    let mut sum = f32x8::ZERO;
    for i in 0..chunks {
        sum += lanes(a, i) * lanes(b, i);
    }
    let mut total = sum.reduce_add();
    for i in chunks * LANES..a.len() {
        total += a[i] * b[i];
    }
    total
}

/// The squared Euclidean distance, which ranks as the distance does.
fn l2_sq(a: &[f32], b: &[f32]) -> f32 {
    let chunks = a.len() / LANES;
    let mut sum = f32x8::ZERO;
    for i in 0..chunks {
        let d = lanes(a, i) - lanes(b, i);
        sum += d * d;
    }
    let mut total = sum.reduce_add();
    for i in chunks * LANES..a.len() {
        let d = a[i] - b[i];
        total += d * d;
    }
    total
}

fn norm(a: &[f32]) -> f32 {
    dot(a, a).sqrt()
}

/// Cosine similarity; zero where a vector has no direction.
fn cosine(a: &[f32], b: &[f32]) -> f32 {
    let na = norm(a);
    let nb = norm(b);
    if na == 0.0 || nb == 0.0 {
        return 0.0;
    }
    dot(a, b) / (na * nb)
}

/// A vector's score for a query: the higher the better, whatever the metric.
fn score(metric: DistanceMetric, query: &[f32], vector: &[f32]) -> f32 {
    match metric {
        DistanceMetric::Cosine => cosine(query, vector),
        DistanceMetric::L2 => -l2_sq(query, vector),
        DistanceMetric::DotProduct => dot(query, vector),
    }
}

/// The score that a distance between quantised vectors suggests.
fn score_estimate(metric: DistanceMetric, sq_dist: f32) -> f32 {
    match metric {
        DistanceMetric::L2 | DistanceMetric::DotProduct => -sq_dist,
        DistanceMetric::Cosine => 1.0 - sq_dist / 2.0,
    }
}

/// A vector as it is clustered: scaled to length one under the cosine metric.
fn cluster_repr(metric: DistanceMetric, v: &[f32]) -> Vec<f32> {
    match metric {
        DistanceMetric::Cosine => {
            let n = norm(v);
            if n == 0.0 {
                v.to_vec()
            } else {
                v.iter().map(|x| x / n).collect()
            }
        }
        DistanceMetric::L2 | DistanceMetric::DotProduct => v.to_vec(),
    }
}

/// Whether a filter counts as wide: it lets through at least this share of
/// the live rows.
fn is_wide(allowed: u64, live: u64, high_bits: u64) -> bool {
    let selectivity = allowed as f64 / live.max(1) as f64;
    selectivity >= f64::from_bits(high_bits)
}

/// The length of the list of late rows at which a rebuild is due.
fn rebuild_threshold(baked_rows: u64, fraction_bits: u64) -> usize {
    (baked_rows.max(1) as f64 * f64::from_bits(fraction_bits)) as usize
}

/// Lloyd's k-means from k-means++ starting points.
fn kmeans(points: &[Vec<f32>], k: usize, iters: usize, seed: u64) -> KmeansResult {
    if points.is_empty() {
        return KmeansResult { centroids: Vec::new(), assignments: Vec::new() };
    }
    let k = cluster_count(k, points.len());
    let mut rng = ChaCha8Rng::seed_from_u64(seed);
    let mut centroids = starting_points(points, k, &mut rng);
    let mut rounds = Rounds::new(iters);
    while rounds.left > 0 {
        let distances: Vec<Vec<u32>> =
            points.iter().map(|p| centroids.iter().map(|c| l2_sq(p, c).to_bits()).collect()).collect();
        let assignments = assign(&distances);
        let moves = rounds.step(assignments.clone());
        if moves {
            move_centroids(points, &assignments, &mut centroids);
        }
    }
    KmeansResult {
        centroids: centroids.iter().map(|c| bits_of(c)).collect(),
        assignments: rounds.assignments.unwrap_or_default(),
    }
}

/// Moves each centre to the mean of its points; one without points stays.
fn move_centroids(points: &[Vec<f32>], assignments: &[usize], centroids: &mut [Vec<f32>]) {
    let dim = points[0].len();
    let mut sums = vec![vec![0.0f32; dim]; centroids.len()];
    let mut counts = vec![0u32; centroids.len()];
    for (point, &cluster) in points.iter().zip(assignments) {
        counts[cluster] += 1;
        for (s, v) in sums[cluster].iter_mut().zip(point) {
            *s += v;
        }
    }
    for (cluster, count) in counts.into_iter().enumerate() {
        if count > 0 {
            for (c, s) in centroids[cluster].iter_mut().zip(&sums[cluster]) {
                *c = s / count as f32;
            }
        }
    }
}

fn starting_points(points: &[Vec<f32>], k: usize, rng: &mut ChaCha8Rng) -> Vec<Vec<f32>> {
    let mut centroids = Vec::with_capacity(k);
    centroids.push(points[rng.gen_range(0..points.len())].clone());
    while centroids.len() < k {
        let weights: Vec<f32> =
            points.iter().map(|p| centroids.iter().map(|c| l2_sq(p, c)).fold(f32::INFINITY, f32::min)).collect();
        let next = if draws_by_weight(&bits_of(&weights)) {
            WeightedIndex::new(&weights).expect("a weight is positive").sample(rng)
        } else {
            rng.gen_range(0..points.len())
        };
        centroids.push(points[next].clone());
    }
    centroids
}

/// Builds the coarse quantiser over vectors in their clustered form.
fn build_coarse(vectored: &[(RowId, Vec<f32>)], params: &IvfParams) -> CoarseQuantizer {
    let rows: Vec<RowId> = vectored.iter().map(|(id, _)| *id).collect();
    let points: Vec<Vec<f32>> = vectored.iter().map(|(_, v)| v.clone()).collect();
    match plan_build(rows.len(), params.n_clusters, params.hierarchical_threshold) {
        BuildPlan::Empty => CoarseQuantizer::empty(),
        BuildPlan::Flat { clusters } => {
            CoarseQuantizer::build_flat(&rows, kmeans(&points, clusters, params.kmeans_iters, params.seed))
        }
        BuildPlan::Hierarchical { parents, children_per_parent } => {
            let level1 = kmeans(&points, parents, params.kmeans_iters, params.seed);
            let level2: Vec<KmeansResult> = (0..level1.centroids.len())
                .map(|p| {
                    let members: Vec<Vec<f32>> =
                        members_of(&level1.assignments, p).into_iter().map(|i| points[i].clone()).collect();
                    kmeans(&members, children_per_parent, params.kmeans_iters, child_seed(params.seed, p))
                })
                .collect();
            CoarseQuantizer::build_hierarchical(&rows, level1, level2)
        }
    }
}

/// A query's distances to the centres of a coarse quantiser.
fn coarse_distances(coarse: &CoarseQuantizer, query: &[f32]) -> CoarseDistances {
    let to = |centroid: &Vec<u32>| l2_sq(query, &floats_of(centroid)).to_bits();
    match coarse {
        CoarseQuantizer::Flat { centroids, .. } => CoarseDistances::Flat(centroids.iter().map(to).collect()),
        CoarseQuantizer::Hierarchical { parents, leaves_by_parent } => CoarseDistances::Hierarchical {
            parents: parents.iter().map(to).collect(),
            leaves: leaves_by_parent.iter().map(|leaves| leaves.iter().map(|l| to(&l.centroid)).collect()).collect(),
        },
    }
}

/// Trains one codebook for each subspace.
fn train_codebook(vectors: &[Vec<f32>], dim: usize, params: &PqParams) -> Result<PqCodebook, PqError> {
    assert!(dim > 0 || params.m > 0, "a vector without dimensions has no subspaces");
    let dsub = check_params(dim, params)?;
    let codebooks: Vec<Vec<Vec<u32>>> = (0..params.m)
        .map(|i| {
            let sub: Vec<Vec<f32>> = vectors.iter().map(|v| v[i * dsub..(i + 1) * dsub].to_vec()).collect();
            kmeans(&sub, params.ksub, params.kmeans_iters, subspace_seed(params.seed, i)).centroids
        })
        .collect();
    PqCodebook::train(codebooks, dim, params)
}

/// The distances of a vector's parts to the centres of their subspaces.
fn part_distances(codebook: &PqCodebook, v: &[f32]) -> Vec<Vec<u32>> {
    split(&bits_of(v), codebook.m, codebook.dsub)
        .iter()
        .zip(&codebook.codebooks)
        .map(|(part, centres)| {
            let part = floats_of(part);
            centres.iter().map(|c| l2_sq(&part, &floats_of(c)).to_bits()).collect()
        })
        .collect()
}

/// The distance of a code, from the distances of a query's parts.
fn code_distance(table: &[Vec<u32>], code: &[u8]) -> f32 {
    code.iter().enumerate().map(|(i, &c)| f32::from_bits(table[i][c as usize])).sum()
}

/// A vector under a rotation.
fn rotate(rotation: &OpqRotation, v: &[f32]) -> Vec<f32> {
    let dim = rotation.dim;
    let matrix_t = floats_of(&rotation.matrix_t);
    (0..dim).map(|j| dot(v, &matrix_t[j * dim..(j + 1) * dim])).collect()
}

/// The rotation that brings `x` closest to `y`.
fn solve_procrustes(x: &[Vec<f32>], y: &[Vec<f32>], dim: usize) -> OpqRotation {
    let x_flat: Vec<f32> = x.iter().flatten().copied().collect();
    let y_flat: Vec<f32> = y.iter().flatten().copied().collect();
    let xm = DMatrix::from_row_slice(x.len(), dim, &x_flat);
    let ym = DMatrix::from_row_slice(y.len(), dim, &y_flat);
    let svd = SVD::new(xm.transpose() * ym, true, true);
    let u = svd.u.expect("asked for");
    let v_t = svd.v_t.expect("asked for");
    let r = u * v_t;
    let rows: Vec<u32> = (0..dim * dim).map(|at| r[(at / dim, at % dim)].to_bits()).collect();
    OpqRotation::from_rows(&rows, dim)
}

/// Trains a rotation and the codebooks under it, in turn.
fn train_opq(vectors: &[Vec<f32>], dim: usize, params: &OpqParams) -> Result<(OpqRotation, PqCodebook), PqError> {
    let mut rotation = OpqRotation::identity(dim);
    if vectors.is_empty() {
        return Ok((rotation, train_codebook(vectors, dim, &params.pq)?));
    }
    let mut round = 0;
    loop {
        let rotated: Vec<Vec<f32>> = vectors.iter().map(|v| rotate(&rotation, v)).collect();
        let codebook = train_codebook(&rotated, dim, &params.round_params(round))?;
        if !params.rotates_after(round) {
            return Ok((rotation, codebook));
        }
        let rebuilt: Vec<Vec<f32>> = rotated
            .iter()
            .map(|r| floats_of(&codebook.decode(&codebook.encode(&part_distances(&codebook, r)))))
            .collect();
        rotation = solve_procrustes(vectors, &rebuilt, dim);
        round += 1;
    }
}

/// An index that answers nearest-neighbour queries.
trait VectorIndex {
    fn query(
        &self,
        storage: &Storage,
        coll: &str,
        query: &[f32],
        k: usize,
        filter: Option<&FilterMask>,
        params: &SearchParams,
    ) -> IndexResult<SearchResult>;
}

fn row_score(metric: DistanceMetric, query: &[f32], row: Option<&Row>) -> u32 {
    match row.and_then(|r| r.vector.as_ref()) {
        Some(v) => score(metric, query, &floats_of(v)).to_bits(),
        None => 0,
    }
}

fn exact_scores(metric: DistanceMetric, query: &[f32], list: &Shortlist) -> Vec<u32> {
    list.rows.iter().map(|row| row_score(metric, query, row.as_ref())).collect()
}

fn wide_filter(storage: &Storage, coll: &str, filter: Option<&FilterMask>, params: &SearchParams) -> bool {
    let live = storage.active_count(coll).unwrap_or(0);
    filter.is_some_and(|f| is_wide(f.estimated_cardinality, live, params.filter_selectivity_high))
}

/// A shortlist of twenty times the results has to be countable.
fn check_shortlist_size(params: &SearchParams, k: usize) {
    assert!(params.rerank_k.is_some() || k <= usize::MAX / 20, "too many results asked for");
}

fn distances_for(index: &IvfIndex, query: &[f32], repr: &[f32]) -> CoarseDistances {
    if query.len() == index.dim {
        coarse_distances(&index.coarse, repr)
    } else {
        CoarseDistances::Flat(Vec::new())
    }
}

impl VectorIndex for FlatIndex {
    fn query(
        &self,
        storage: &Storage,
        coll: &str,
        query: &[f32],
        k: usize,
        filter: Option<&FilterMask>,
        params: &SearchParams,
    ) -> IndexResult<SearchResult> {
        let rows = self.candidates(storage, coll, &bits_of(query), k, filter, params)?;
        let scores: Vec<u32> = rows.iter().map(|row| row_score(self.metric, query, Some(row))).collect();
        Ok(self.search(&rows, &scores, k, params))
    }
}

impl VectorIndex for IvfIndex {
    fn query(
        &self,
        storage: &Storage,
        coll: &str,
        query: &[f32],
        k: usize,
        filter: Option<&FilterMask>,
        params: &SearchParams,
    ) -> IndexResult<SearchResult> {
        check_shortlist_size(params, k);
        let repr = cluster_repr(self.metric, query);
        let distances = distances_for(self, query, &repr);
        let wide = wide_filter(storage, coll, filter, params);
        let list = self.candidates(storage, coll, &bits_of(query), &distances, k, filter, wide, params)?;
        Ok(list.finish(&exact_scores(self.metric, query, &list), self.metric, true, k, params))
    }
}

impl VectorIndex for IvfPqIndex {
    fn query(
        &self,
        storage: &Storage,
        coll: &str,
        query: &[f32],
        k: usize,
        filter: Option<&FilterMask>,
        params: &SearchParams,
    ) -> IndexResult<SearchResult> {
        check_shortlist_size(params, k);
        let mut repr = cluster_repr(self.metric, query);
        if let Some(rotation) = self.rotation.as_ref().filter(|_| query.len() == self.dim) {
            repr = rotate(rotation, &repr);
        }
        let distances = distances_for(&self.coarse, query, &repr);
        let wide = wide_filter(storage, coll, filter, params);
        let (ids, truncated) = self.candidates(&bits_of(query), &distances, k, filter, wide, params)?;
        if k == 0 || self.n_clusters() == 0 {
            return Ok(SearchResult { hits: Vec::new(), truncated_by_filter: false });
        }

        let table = part_distances(&self.codebook, &repr);
        let code_of = |id: &RowId| self.codes.get(&id.0).map(|code| code_distance(&table, code)).unwrap_or(f32::INFINITY);
        let estimates: Vec<u32> = ids.iter().map(|id| code_of(id).to_bits()).collect();
        let chosen = IvfPqIndex::shortlist(&ids, &estimates, params, k);
        let list = self.fetch_shortlist(storage, coll, &chosen, truncated)?;
        let scores: Vec<u32> = if IvfPqIndex::reranks(params, k) {
            exact_scores(self.metric, query, &list)
        } else {
            chosen.iter().map(|id| score_estimate(self.metric, code_of(id)).to_bits()).collect()
        };
        Ok(self.finish(&list, &scores, k, params))
    }
}

fn signature(planes: &[Vec<u32>], v: &[f32]) -> u32 {
    let signs: Vec<bool> = planes.iter().map(|p| dot(v, &floats_of(p)) >= 0.0).collect();
    bucket_key(&signs)
}

impl VectorIndex for LshIndex {
    fn query(
        &self,
        storage: &Storage,
        coll: &str,
        query: &[f32],
        k: usize,
        filter: Option<&FilterMask>,
        params: &SearchParams,
    ) -> IndexResult<SearchResult> {
        let repr = cluster_repr(self.metric, query);
        let keys: Vec<u32> = if query.len() == self.dim {
            self.tables.iter().map(|t| signature(&t.hyperplanes, &repr)).collect()
        } else {
            Vec::new()
        };
        let list = self.candidates(storage, coll, &bits_of(query), &keys, k, filter)?;
        Ok(list.finish(&exact_scores(self.metric, query, &list), self.metric, true, k, params))
    }
}

/// The rows of a collection in their clustered form.
fn clustered_rows(storage: &Storage, coll: &str, metric: DistanceMetric) -> IndexResult<Vec<(RowId, Vec<f32>)>> {
    let rows = scan_all(storage, coll).map_err(IndexError::Storage)?;
    Ok(rows
        .iter()
        .filter_map(|r| r.vector.as_ref().map(|v| (r.id, cluster_repr(metric, &floats_of(v)))))
        .collect())
}

fn build_ivf(storage: &Storage, coll: &str, dim: usize, metric: DistanceMetric, params: &IvfParams) -> IndexResult<IvfIndex> {
    let vectored = clustered_rows(storage, coll, metric)?;
    Ok(IvfIndex::new(dim, metric, build_coarse(&vectored, params)))
}

fn build_quantised(
    storage: &Storage,
    coll: &str,
    dim: usize,
    metric: DistanceMetric,
    ivf: &IvfParams,
    pq: &PqParams,
    opq: Option<&OpqParams>,
) -> IndexResult<IvfPqIndex> {
    let base = clustered_rows(storage, coll, metric)?;
    let plain: Vec<Vec<f32>> = base.iter().map(|(_, v)| v.clone()).collect();
    let (rotation, codebook): (Option<OpqRotation>, _) = match opq {
        Some(opq) => {
            let (rotation, codebook) = train_opq(&plain, dim, opq).map_err(IndexError::Pq)?;
            (Some(rotation), codebook)
        }
        None => (None, train_codebook(&plain, dim, pq).map_err(IndexError::Pq)?),
    };
    let vectored: Vec<(RowId, Vec<f32>)> = match &rotation {
        Some(r) => base.into_iter().map(|(id, v)| (id, rotate(r, &v))).collect(),
        None => base,
    };
    let coarse = IvfIndex::new(dim, metric, build_coarse(&vectored, ivf));
    let ids: Vec<RowId> = vectored.iter().map(|(id, _)| *id).collect();
    let codes: Vec<Vec<u8>> = vectored.iter().map(|(_, v)| codebook.encode(&part_distances(&codebook, v))).collect();
    Ok(IvfPqIndex::new(dim, metric, rotation, coarse, codebook, &ids, codes))
}

fn build_ivf_pq(storage: &Storage, coll: &str, dim: usize, metric: DistanceMetric, ivf: &IvfParams, pq: &PqParams) -> IndexResult<IvfPqIndex> {
    build_quantised(storage, coll, dim, metric, ivf, pq, None)
}

fn build_ivf_opq(storage: &Storage, coll: &str, dim: usize, metric: DistanceMetric, ivf: &IvfParams, opq: &OpqParams) -> IndexResult<IvfPqIndex> {
    build_quantised(storage, coll, dim, metric, ivf, &opq.pq, Some(opq))
}

fn build_lsh(storage: &Storage, coll: &str, dim: usize, metric: DistanceMetric, params: &LshParams) -> IndexResult<LshIndex> {
    params.check().map_err(IndexError::Lsh)?;
    let vectored = clustered_rows(storage, coll, metric)?;
    let rows: Vec<RowId> = vectored.iter().map(|(id, _)| *id).collect();
    let mut rng = ChaCha8Rng::seed_from_u64(params.seed);
    let mut hyperplanes: Vec<Vec<Vec<u32>>> = Vec::new();
    let mut keys: Vec<Vec<u32>> = Vec::new();
    for _ in 0..params.table_count() {
        let planes: Vec<Vec<u32>> = (0..params.num_hyperplanes)
            .map(|_| (0..dim).map(|_| rng.gen_range(-1.0f32..1.0).to_bits()).collect())
            .collect();
        keys.push(vectored.iter().map(|(_, v)| signature(&planes, v)).collect());
        hyperplanes.push(planes);
    }
    LshIndex::build(dim, metric, params, &rows, hyperplanes, &keys)
}

type Builder = Box<dyn Fn(&Storage, &str) -> IndexResult<Box<dyn VectorIndex>>>;

struct Live {
    builder: Builder,
    baked: Box<dyn VectorIndex>,
    state: LiveIndex,
}

impl Live {
    fn build(storage: &Storage, builder: Builder, metric: DistanceMetric, params: LiveIndexParams) -> Live {
        let baked = builder(storage, "docs").unwrap();
        let row_count = storage.active_count("docs").unwrap_or(0);
        Live { builder, baked, state: LiveIndex::new(3, metric, row_count, params) }
    }

    fn should_rebuild(&self, elapsed: u128) -> bool {
        let threshold = rebuild_threshold(self.state.baked_row_count, self.state.params.rebuild_threshold_fraction);
        self.state.should_rebuild(threshold, elapsed)
    }

    fn rebuild(&mut self, storage: &Storage) {
        let start = self.state.begin_rebuild();
        self.baked = (self.builder)(storage, "docs").unwrap();
        self.state.finish_rebuild(&start, storage.active_count("docs").unwrap_or(0));
    }
}

impl VectorIndex for Live {
    fn query(
        &self,
        storage: &Storage,
        coll: &str,
        query: &[f32],
        k: usize,
        filter: Option<&FilterMask>,
        params: &SearchParams,
    ) -> IndexResult<SearchResult> {
        let state = &self.state;
        let asked = match state.begin_search(&bits_of(query), k, filter, params)? {
            Some(asked) => asked,
            None => return Ok(SearchResult { hits: Vec::new(), truncated_by_filter: false }),
        };
        let found = self.baked.query(storage, coll, query, asked.k, asked.filter.as_ref(), &asked.params)?;
        let late = state.delta_candidates(&asked.filter);
        let rows = storage.rows_by_id(coll, &state.delta_ids(&late)).map_err(IndexError::Storage)?;
        let scores: Vec<u32> =
            late.iter().map(|at| score(state.metric, query, &floats_of(&state.delta[*at].1)).to_bits()).collect();
        Ok(state.search(found, &late, &rows, &scores, k, params))
    }
}

/// Hands the changes that a collection announced to a live index.
fn deliver(s: &mut Storage, live: &mut Live) {
    let batches: Vec<ChangeBatch> = s.collections[0].outbox.drain(..).collect();
    for batch in &batches {
        live.state.on_change(batch);
    }
}

fn forget_changes(s: &mut Storage) {
    s.collections[0].outbox.clear();
}

fn ctx() -> RequestCtx {
    RequestCtx::new(
        SessionId("s".into()),
        Principal { id: PrincipalId("p".into()), name: "t".into(), role: Role::Writer },
        Source::Embedded,
    )
}

fn empty_storage(dim: usize, metric: DistanceMetric) -> Storage {
    let mut s = Storage::new();
    s.create_collection(&ctx(), "docs", dim, metric, PayloadSchema::empty()).unwrap();
    s
}

fn put(s: &mut Storage, key: &str, v: &[f32]) -> RowId {
    s.put(&ctx(), "docs", key, bits_of(v), PayloadRow::new(), None).unwrap()
}

fn storage_with(rows: &[(&str, [f32; 3])], metric: DistanceMetric) -> Storage {
    let mut s = empty_storage(3, metric);
    for (key, v) in rows {
        put(&mut s, key, v);
    }
    s
}

fn id_of(s: &Storage, key: &str) -> RowId {
    s.get_by_key("docs", key).unwrap().unwrap().id
}

fn ungrouped() -> SearchParams {
    SearchParams { max_chunks_per_doc: None, ..SearchParams::default() }
}

fn params(nprobe: usize) -> SearchParams {
    SearchParams { max_chunks_per_doc: None, nprobe, ..SearchParams::default() }
}

fn mask_of(ids: &[RowId]) -> FilterMask {
    let allowed: RoaringBitmap = ids.iter().map(|id| id.0 as u32).collect();
    let estimated_cardinality = allowed.len();
    FilterMask { allowed, estimated_cardinality }
}

fn tagged_storage(rows: &[(&str, &str, &[f32])]) -> Storage {
    let mut s = Storage::new();
    let schema = PayloadSchema::builder().field("tag", FieldType::Keyword).build();
    s.create_collection(&ctx(), "docs", rows[0].2.len(), DistanceMetric::Cosine, schema).unwrap();
    for (key, tag, v) in rows {
        let mut fields = PayloadRow::new();
        fields.insert("tag".into(), PayloadValue::Keyword((*tag).into()));
        s.put(&ctx(), "docs", key, bits_of(v), fields, None).unwrap();
    }
    s
}

fn keep_mask(s: &Storage) -> FilterMask {
    s.compile_filter("docs", &Filter::Eq { field: "tag".into(), value: Scalar::Str("keep".into()) }).ok().unwrap()
}

fn add_document(s: &mut Storage, doc_key: &str, vectors: &[Vec<f32>]) -> DocId {
    let chunks: Vec<ChunkInput> =
        vectors.iter().enumerate().map(|(i, v)| ChunkInput { text: format!("chunk {i}"), vector: bits_of(v) }).collect();
    let dim = vectors[0].len();
    s.put_document(
        &ctx(),
        "docs",
        PutDocumentInput {
            doc_key: doc_key.into(),
            chunks,
            doc_payload: PayloadRow::new(),
            chunk_spec: ChunkSpec::default(),
            source: None,
            embedding_model: ModelFingerprint { model_id: "test".into(), revision: None, dim },
        },
    )
    .unwrap()
}

fn one_document(dim: usize) -> Storage {
    let mut s = empty_storage(dim, DistanceMetric::Cosine);
    let vectors: Vec<Vec<f32>> = (0..5)
        .map(|i| {
            let mut v = vec![0.0; dim];
            v[0] = 1.0 - i as f32 * 0.01;
            v
        })
        .collect();
    add_document(&mut s, "big.md", &vectors);
    s
}

fn search(index: &dyn VectorIndex, s: &Storage, query: &[f32], k: usize, filter: Option<&FilterMask>, p: &SearchParams) -> SearchResult {
    index.query(s, "docs", query, k, filter, p).ok().unwrap()
}

fn refusal(index: &dyn VectorIndex, s: &Storage, query: &[f32], p: &SearchParams) -> IndexError {
    index.query(s, "docs", query, 1, None, p).err().unwrap()
}

fn score_of(hit: &SearchHit) -> f32 {
    f32::from_bits(hit.score)
}

// Routing.

fn bitmap(ids: &[u64]) -> RoaringBitmap {
    ids.iter().map(|id| *id as u32).collect()
}

/// Two parents, and a query closer to the first while the second's leaf is
/// within reach.
fn boundary_case() -> CoarseQuantizer {
    CoarseQuantizer::Hierarchical {
        parents: vec![bits_of(&[0.0, 0.0]), bits_of(&[10.0, 0.0])],
        leaves_by_parent: vec![
            vec![Leaf { centroid: bits_of(&[0.0, 0.0]), posting_list: bitmap(&[100]) }],
            vec![Leaf { centroid: bits_of(&[10.0, 0.0]), posting_list: bitmap(&[200]) }],
        ],
    }
}

fn route(coarse: &CoarseQuantizer, query: &[f32], nprobe: usize, beam_width: usize) -> RoaringBitmap {
    coarse.route_candidates(&coarse_distances(coarse, query), nprobe, beam_width)
}

fn ivf_params(n_clusters: usize, kmeans_iters: usize, seed: u64) -> IvfParams {
    IvfParams { n_clusters, kmeans_iters, seed, ..IvfParams::default() }
}

#[test]
fn beam_width_one_cannot_reach_the_non_nearest_parents_leaf() {
    let coarse = boundary_case();
    let candidates = route(&coarse, &[4.9, 0.0], 2, 1);
    assert_eq!(
        candidates,
        bitmap(&[100]),
        "beam_width=1 structurally cannot see a leaf under any parent but the single nearest one"
    );
}

#[test]
fn beam_width_two_recovers_the_boundary_case() {
    let coarse = boundary_case();
    let candidates = route(&coarse, &[4.9, 0.0], 2, 2);
    assert_eq!(candidates, bitmap(&[100, 200]), "beam_width=2 keeps both parents alive, so both leaves enter the nprobe pool");
}

#[test]
fn nprobe_still_limits_the_pool_even_with_a_wide_beam() {
    let coarse = boundary_case();
    let candidates = route(&coarse, &[4.9, 0.0], 1, 2);
    assert_eq!(candidates, bitmap(&[100]));
}

#[test]
fn build_hierarchical_produces_leaves_close_to_the_requested_n_clusters() {
    let mut rows: Vec<(RowId, Vec<f32>)> = Vec::new();
    let mut id = 0u64;
    for cx in 0..4 {
        for i in 0..50 {
            let x = cx as f32 * 100.0 + (i as f32 * 0.1);
            rows.push((RowId(id), vec![x, 0.0]));
            id += 1;
        }
    }
    let coarse = build_coarse(&rows, &IvfParams { n_clusters: 16, kmeans_iters: 15, seed: 1, hierarchical_threshold: 0 });
    assert!(matches!(coarse, CoarseQuantizer::Hierarchical { .. }), "hierarchical_threshold=0 must force hierarchical mode");
    assert!(
        coarse.n_leaves() > 0 && coarse.n_leaves() <= 16,
        "leaf count should land at or under the requested n_clusters, got {}",
        coarse.n_leaves()
    );
}

#[test]
fn below_threshold_stays_flat() {
    let vectored: Vec<(RowId, Vec<f32>)> = vec![(RowId(1), vec![0.0, 0.0]), (RowId(2), vec![1.0, 1.0])];
    let coarse = build_coarse(&vectored, &IvfParams { n_clusters: 2, kmeans_iters: 5, seed: 1, hierarchical_threshold: 512 });
    assert!(matches!(coarse, CoarseQuantizer::Flat { .. }));
}

#[test]
fn empty_input_is_empty_regardless_of_threshold() {
    let coarse = build_coarse(&[], &IvfParams { n_clusters: 10, kmeans_iters: 5, seed: 1, hierarchical_threshold: 0 });
    assert!(coarse.is_empty());
    assert_eq!(coarse.n_leaves(), 0);
}

#[test]
fn two_levels_put_every_row_in_one_leaf() {
    let rows: Vec<RowId> = (0..5).map(RowId).collect();
    let level1 = KmeansResult { centroids: vec![vec![0], vec![1], vec![2]], assignments: vec![2, 0, 2, 0, 2] };
    let level2 = vec![
        KmeansResult { centroids: vec![vec![10]], assignments: vec![0, 0] },
        KmeansResult { centroids: Vec::new(), assignments: Vec::new() },
        KmeansResult { centroids: vec![vec![20], vec![21]], assignments: vec![1, 0, 1] },
    ];
    let coarse = CoarseQuantizer::build_hierarchical(&rows, level1, level2);
    assert_eq!(coarse.n_leaves(), 3);
    assert!(coarse.n_leaves() <= rows.len());
    match coarse {
        CoarseQuantizer::Hierarchical { leaves_by_parent, .. } => {
            let lists: Vec<Vec<RoaringBitmap>> =
                leaves_by_parent.iter().map(|ls| ls.iter().map(|l| l.posting_list.clone()).collect()).collect();
            assert_eq!(lists, vec![vec![bitmap(&[1, 3])], Vec::new(), vec![bitmap(&[2]), bitmap(&[0, 4])]]);
        }
        CoarseQuantizer::Flat { .. } => panic!("two levels were asked for"),
    }
}

#[test]
fn posting_lists_cover_the_rows_once() {
    let rows: Vec<RowId> = (0..4).map(RowId).collect();
    let clusters = KmeansResult { centroids: vec![vec![0], vec![1]], assignments: vec![1, 0, 1, 1] };
    match CoarseQuantizer::build_flat(&rows, clusters) {
        CoarseQuantizer::Flat { posting_lists, .. } => assert_eq!(posting_lists, vec![bitmap(&[1]), bitmap(&[0, 2, 3])]),
        CoarseQuantizer::Hierarchical { .. } => panic!("one level was asked for"),
    }
}

#[test]
fn build_plans_split_the_clusters_over_two_levels() {
    assert!(matches!(plan_build(0, 10, 0), BuildPlan::Empty));
    assert!(matches!(plan_build(5, 10, 10), BuildPlan::Flat { clusters: 10 }));
    assert!(matches!(plan_build(5, 10, 9), BuildPlan::Hierarchical { parents: 4, children_per_parent: 3 }));
    assert_eq!(ceil_sqrt(0), 0);
    assert_eq!(ceil_sqrt(16), 4);
    assert_eq!(ceil_sqrt(17), 5);
    assert_eq!(ceil_sqrt(u64::MAX), 1 << 32);
    assert_eq!(child_seed(u64::MAX, 2), 2);
    assert_eq!(members_of(&vec![0, 1, 0, 2], 0), vec![0, 2]);
}

#[test]
fn escalation_doubles_the_probes_until_the_target_or_the_cap() {
    let coarse = CoarseQuantizer::Flat {
        centroids: (0..8).map(|i| bits_of(&[i as f32])).collect(),
        posting_lists: (0..8).map(|i| bitmap(&[i])).collect(),
    };
    let d = coarse_distances(&coarse, &[0.0]);
    let all = bitmap(&[0, 1, 2, 3, 4, 5, 6, 7]);
    assert_eq!(coarse.route_with_escalation(&d, 1, 1, &all, 3, 8), (bitmap(&[0, 1, 2, 3]), false));
    assert_eq!(coarse.route_with_escalation(&d, 1, 1, &all, 7, 3), (bitmap(&[0, 1, 2]), true));
    assert_eq!(coarse.route_with_escalation(&d, 1, 1, &bitmap(&[7]), 2, 100), (bitmap(&[7]), false));
}

#[test]
fn rerank_targets_default_to_twenty_times_the_results() {
    assert_eq!(rerank_target(&SearchParams::default(), 3), 200);
    assert_eq!(rerank_target(&SearchParams::default(), 30), 600);
    assert_eq!(rerank_target(&SearchParams { rerank_k: Some(7), ..SearchParams::default() }, 30), 7);
}

// Exhaustive search.

#[test]
fn nearest_neighbor_ranks_first_under_cosine() {
    let s = storage_with(&[("a", [1.0, 0.0, 0.0]), ("b", [0.0, 1.0, 0.0]), ("c", [0.9, 0.1, 0.0])], DistanceMetric::Cosine);
    let idx = FlatIndex::new(3, DistanceMetric::Cosine);
    let hits = search(&idx, &s, &[1.0, 0.0, 0.0], 3, None, &ungrouped()).hits;
    assert_eq!(hits.len(), 3);
    assert_eq!(id_of(&s, "a"), hits[0].id, "exact match must rank first");
    assert!(hits[0].exact);
    assert!(hits.windows(2).all(|w| score_of(&w[0]) >= score_of(&w[1])), "must be sorted descending by score");
}

#[test]
fn l2_metric_ranks_closest_point_first() {
    let s = storage_with(
        &[("far", [10.0, 10.0, 10.0]), ("near", [1.1, 0.0, 0.0]), ("mid", [3.0, 0.0, 0.0])],
        DistanceMetric::Cosine,
    );
    let idx = FlatIndex::new(3, DistanceMetric::L2);
    let hits = search(&idx, &s, &[1.0, 0.0, 0.0], 1, None, &ungrouped()).hits;
    assert_eq!(hits.len(), 1);
    assert_eq!(id_of(&s, "near"), hits[0].id);
}

#[test]
fn dot_product_favors_larger_magnitude_in_the_same_direction() {
    let s = storage_with(&[("small", [1.0, 0.0, 0.0]), ("large", [5.0, 0.0, 0.0])], DistanceMetric::Cosine);
    let idx = FlatIndex::new(3, DistanceMetric::DotProduct);
    let hits = search(&idx, &s, &[1.0, 0.0, 0.0], 2, None, &ungrouped()).hits;
    assert_eq!(id_of(&s, "large"), hits[0].id);
}

#[test]
fn flat_dimension_mismatch_is_a_clear_error() {
    let s = storage_with(&[("a", [1.0, 0.0, 0.0])], DistanceMetric::Cosine);
    let idx = FlatIndex::new(3, DistanceMetric::Cosine);
    let err = refusal(&idx, &s, &[1.0, 0.0], &SearchParams::default());
    assert!(matches!(err, IndexError::DimMismatch { expected: 3, got: 2 }));
}

#[test]
fn k_larger_than_the_collection_returns_everything_without_panicking() {
    let s = storage_with(&[("a", [1.0, 0.0, 0.0]), ("b", [0.0, 1.0, 0.0])], DistanceMetric::Cosine);
    let idx = FlatIndex::new(3, DistanceMetric::Cosine);
    let hits = search(&idx, &s, &[1.0, 0.0, 0.0], 100, None, &ungrouped()).hits;
    assert_eq!(hits.len(), 2);
}

#[test]
fn empty_collection_returns_empty_without_panicking() {
    let s = empty_storage(3, DistanceMetric::Cosine);
    let idx = FlatIndex::new(3, DistanceMetric::Cosine);
    let hits = search(&idx, &s, &[1.0, 0.0, 0.0], 5, None, &SearchParams::default()).hits;
    assert!(hits.is_empty());
}

#[test]
fn flat_filter_mask_excludes_non_matching_rows() {
    let s = storage_with(&[("a", [1.0, 0.0, 0.0]), ("b", [0.9, 0.1, 0.0])], DistanceMetric::Cosine);
    let id_a = id_of(&s, "a");
    let mask = mask_of(&[id_a]);
    let idx = FlatIndex::new(3, DistanceMetric::Cosine);
    let hits = search(&idx, &s, &[1.0, 0.0, 0.0], 5, Some(&mask), &ungrouped()).hits;
    assert_eq!(hits.len(), 1);
    assert_eq!(hits[0].id, id_a);
    let scanned = SearchParams { filter_exact_threshold: 0, ..ungrouped() };
    let hits = search(&idx, &s, &[1.0, 0.0, 0.0], 5, Some(&mask), &scanned).hits;
    assert_eq!(hits.len(), 1);
    assert_eq!(hits[0].id, id_a);
}

#[test]
fn flat_compiled_filter_mask_from_storage_round_trips_through_search() {
    let s = tagged_storage(&[("a", "keep", &[1.0, 0.0, 0.0]), ("b", "drop", &[0.9, 0.1, 0.0])]);
    let mask = keep_mask(&s);
    let idx = FlatIndex::new(3, DistanceMetric::Cosine);
    let hits = search(&idx, &s, &[1.0, 0.0, 0.0], 5, Some(&mask), &ungrouped()).hits;
    assert_eq!(hits.len(), 1);
    assert_eq!(hits[0].id, id_of(&s, "a"));
}

#[test]
fn flat_max_chunks_per_doc_caps_hits_from_one_document() {
    let s = one_document(3);
    let idx = FlatIndex::new(3, DistanceMetric::Cosine);
    let capped = SearchParams { max_chunks_per_doc: Some(2), ..SearchParams::default() };
    let hits = search(&idx, &s, &[1.0, 0.0, 0.0], 10, None, &capped).hits;
    assert_eq!(hits.len(), 2, "only 2 of the document's 5 chunks may appear");
}

#[test]
fn no_grouping_when_max_chunks_per_doc_is_none() {
    let s = one_document(3);
    let idx = FlatIndex::new(3, DistanceMetric::Cosine);
    let hits = search(&idx, &s, &[1.0, 0.0, 0.0], 10, None, &ungrouped()).hits;
    assert_eq!(hits.len(), 5);
}

#[test]
fn a_missing_collection_is_a_storage_error() {
    let s = Storage::new();
    let idx = FlatIndex::new(3, DistanceMetric::Cosine);
    assert!(matches!(refusal(&idx, &s, &[1.0, 0.0, 0.0], &ungrouped()), IndexError::Storage(_)));
}

#[test]
fn scans_cross_page_boundaries() {
    let s = storage_with(&[("a", [1.0, 0.0, 0.0]), ("b", [0.0, 1.0, 0.0])], DistanceMetric::Cosine);
    let keys: Vec<String> = scan_all(&s, "docs").ok().unwrap().into_iter().map(|r| r.key).collect();
    assert_eq!(keys, vec!["a", "b"]);
}

#[test]
fn grouping_keeps_the_best_of_each_document() {
    let hit = |id: u64, doc: Option<u64>| SearchHit {
        id: RowId(id),
        doc_id: doc.map(DocId),
        chunk_ord: None,
        score: 0,
        metric: DistanceMetric::L2,
        exact: true,
    };
    let ranked = vec![hit(1, Some(7)), hit(2, Some(7)), hit(3, None), hit(4, Some(8)), hit(5, None)];
    let ids = |hits: Vec<SearchHit>| hits.iter().map(|h| h.id.0).collect::<Vec<u64>>();
    assert_eq!(ids(apply_doc_grouping(&ranked, 10, Some(1))), vec![1, 3, 4, 5]);
    assert_eq!(ids(apply_doc_grouping(&ranked, 2, Some(1))), vec![1, 3]);
    assert_eq!(ids(apply_doc_grouping(&ranked, 10, None)), vec![1, 2, 3, 4, 5]);
    assert_eq!(ids(apply_doc_grouping(&ranked, 10, Some(0))), vec![3, 5]);
}

// Inverted lists.

fn synthetic_collection(n_clusters: usize, per_cluster: usize, seed: u64) -> Storage {
    let mut rng = ChaCha8Rng::seed_from_u64(seed);
    let centers = [[0.0f32, 0.0, 0.0], [50.0, 0.0, 0.0], [0.0, 50.0, 0.0], [0.0, 0.0, 50.0]];
    let mut s = empty_storage(3, DistanceMetric::L2);
    let mut i = 0;
    for c in centers.iter().take(n_clusters) {
        for _ in 0..per_cluster {
            let v = [c[0] + rng.gen_range(-1.0..1.0), c[1] + rng.gen_range(-1.0..1.0), c[2] + rng.gen_range(-1.0..1.0)];
            put(&mut s, &format!("k{i}"), &v);
            i += 1;
        }
    }
    s
}

fn ivf(s: &Storage, metric: DistanceMetric, p: &IvfParams) -> IvfIndex {
    build_ivf(s, "docs", 3, metric, p).ok().unwrap()
}

fn assert_same_ranking(a: &[SearchHit], b: &[SearchHit]) {
    assert_eq!(a.len(), b.len());
    for (a, b) in a.iter().zip(b) {
        assert_eq!(a.id, b.id, "an exhaustive search must reproduce FlatIndex's exact ranking");
        assert!((score_of(a) - score_of(b)).abs() < 1e-4);
    }
}

#[test]
fn probing_every_cluster_matches_flat_index_exactly() {
    let s = synthetic_collection(4, 15, 1);
    let ivf = ivf(&s, DistanceMetric::L2, &ivf_params(6, 15, 2));
    let flat = FlatIndex::new(3, DistanceMetric::L2);

    let query = [1.0, 1.0, 1.0];
    let k = 12;
    let ivf_hits = search(&ivf, &s, &query, k, None, &params(ivf.n_clusters())).hits;
    let flat_hits = search(&flat, &s, &query, k, None, &params(0)).hits;
    assert_same_ranking(&ivf_hits, &flat_hits);
}

#[test]
fn hierarchical_mode_exhaustive_beam_and_nprobe_matches_flat_index_exactly() {
    let s = synthetic_collection(4, 15, 5);
    let ivf = ivf(&s, DistanceMetric::L2, &IvfParams { n_clusters: 6, kmeans_iters: 15, seed: 2, hierarchical_threshold: 0 });
    let flat = FlatIndex::new(3, DistanceMetric::L2);

    let query = [1.0, 1.0, 1.0];
    let k = 12;
    let exhaustive = SearchParams { beam_width: ivf.n_clusters().max(1), ..params(ivf.n_clusters().max(1)) };
    let ivf_hits = search(&ivf, &s, &query, k, None, &exhaustive).hits;
    let flat_hits = search(&flat, &s, &query, k, None, &params(0)).hits;
    assert_same_ranking(&ivf_hits, &flat_hits);
}

#[test]
fn a_query_near_one_cluster_finds_its_true_neighbors_with_a_small_nprobe() {
    let s = synthetic_collection(4, 20, 3);
    let ivf = ivf(&s, DistanceMetric::L2, &ivf_params(4, 20, 4));
    let flat = FlatIndex::new(3, DistanceMetric::L2);

    let query = [0.0, 0.0, 0.0];
    let k = 5;
    let ivf_hits = search(&ivf, &s, &query, k, None, &params(1)).hits;
    let flat_hits = search(&flat, &s, &query, k, None, &params(0)).hits;

    let flat_ids: HashSet<RowId> = flat_hits.iter().map(|h| h.id).collect();
    let overlap = ivf_hits.iter().filter(|h| flat_ids.contains(&h.id)).count();
    assert_eq!(overlap, k, "a query at a cluster's own center must recover all its true nearest neighbors via nprobe=1");
}

#[test]
fn ivf_dimension_mismatch_is_a_clear_error() {
    let s = storage_with(&[("a", [1.0, 0.0, 0.0])], DistanceMetric::Cosine);
    let ivf = ivf(&s, DistanceMetric::Cosine, &IvfParams::default());
    let err = refusal(&ivf, &s, &[1.0, 0.0], &params(1));
    assert!(matches!(err, IndexError::DimMismatch { expected: 3, got: 2 }));
}

#[test]
fn ivf_empty_collection_builds_and_searches_without_panicking() {
    let s = empty_storage(3, DistanceMetric::Cosine);
    let ivf = ivf(&s, DistanceMetric::Cosine, &IvfParams::default());
    assert_eq!(ivf.n_clusters(), 0);
    let hits = search(&ivf, &s, &[1.0, 0.0, 0.0], 5, None, &params(4)).hits;
    assert!(hits.is_empty());
}

#[test]
fn requesting_more_clusters_than_rows_is_clamped_not_a_panic() {
    let s = storage_with(&[("a", [1.0, 0.0, 0.0]), ("b", [0.0, 1.0, 0.0])], DistanceMetric::Cosine);
    let ivf = ivf(&s, DistanceMetric::Cosine, &ivf_params(50, 5, 1));
    assert_eq!(ivf.n_clusters(), 2);
    let hits = search(&ivf, &s, &[1.0, 0.0, 0.0], 5, None, &params(50)).hits;
    assert_eq!(hits.len(), 2);
}

#[test]
fn filter_mask_excludes_non_matching_rows_from_ivf_candidates() {
    let s = storage_with(&[("a", [1.0, 0.0, 0.0]), ("b", [0.9, 0.1, 0.0])], DistanceMetric::Cosine);
    let id_a = id_of(&s, "a");
    let ivf = ivf(&s, DistanceMetric::Cosine, &ivf_params(1, 5, 1));
    let hits = search(&ivf, &s, &[1.0, 0.0, 0.0], 5, Some(&mask_of(&[id_a])), &params(1)).hits;
    assert_eq!(hits.len(), 1);
    assert_eq!(hits[0].id, id_a);
}

#[test]
fn compiled_filter_mask_from_storage_round_trips_through_ivf_search() {
    let s = tagged_storage(&[("a", "keep", &[1.0, 0.0, 0.0]), ("b", "drop", &[0.9, 0.1, 0.0])]);
    let ivf = ivf(&s, DistanceMetric::Cosine, &ivf_params(1, 5, 1));
    let hits = search(&ivf, &s, &[1.0, 0.0, 0.0], 5, Some(&keep_mask(&s)), &params(1)).hits;
    assert_eq!(hits.len(), 1);
    assert_eq!(hits[0].id, id_of(&s, "a"));
}

#[test]
fn ivf_max_chunks_per_doc_caps_hits_from_one_document() {
    let s = one_document(3);
    let ivf = ivf(&s, DistanceMetric::Cosine, &ivf_params(1, 5, 1));
    let capped = SearchParams { max_chunks_per_doc: Some(2), nprobe: 1, ..SearchParams::default() };
    let hits = search(&ivf, &s, &[1.0, 0.0, 0.0], 10, None, &capped).hits;
    assert_eq!(hits.len(), 2, "only 2 of the document's 5 chunks may appear");
}

fn fourth_cluster(s: &Storage) -> FilterMask {
    let ids: Vec<RowId> = (60..80).map(|i| id_of(s, &format!("k{i}"))).collect();
    mask_of(&ids)
}

#[test]
fn regime_1_exact_scan_bypasses_coarse_routing_entirely() {
    let s = synthetic_collection(4, 20, 7);
    let ivf = ivf(&s, DistanceMetric::L2, &ivf_params(4, 20, 8));
    let target_id = id_of(&s, "k60");
    let result = search(&ivf, &s, &[0.0, 0.0, 0.0], 5, Some(&mask_of(&[target_id])), &params(1));
    assert_eq!(result.hits.len(), 1, "regime 1 must find the filtered row regardless of nprobe/coarse routing");
    assert_eq!(result.hits[0].id, target_id);
    assert!(!result.truncated_by_filter);
}

#[test]
fn regime_2_escalation_recovers_a_full_k_from_a_cluster_nprobe_would_otherwise_miss() {
    let s = synthetic_collection(4, 20, 9);
    let ivf = ivf(&s, DistanceMetric::L2, &ivf_params(4, 20, 10));
    let p = SearchParams { filter_exact_threshold: 5, filter_nprobe_max: Some(4), ..params(1) };
    let result = search(&ivf, &s, &[0.0, 0.0, 0.0], 5, Some(&fourth_cluster(&s)), &p);
    assert_eq!(
        result.hits.len(),
        5,
        "escalation must fill a full k from the filtered cluster despite nprobe=1's normal routing missing it"
    );
    assert!(
        !result.truncated_by_filter,
        "the cap coincided with an exhaustive search, so this must not read as truncated"
    );
}

#[test]
fn truncated_by_filter_is_set_when_the_escalation_cap_is_hit_short_of_the_target() {
    let s = synthetic_collection(4, 20, 11);
    let ivf = ivf(&s, DistanceMetric::L2, &ivf_params(4, 20, 12));
    let p = SearchParams { filter_exact_threshold: 5, filter_nprobe_max: Some(1), ..params(1) };
    let result = search(&ivf, &s, &[0.0, 0.0, 0.0], 5, Some(&fourth_cluster(&s)), &p);
    assert!(result.hits.is_empty(), "capped short of the 4th cluster, this search cannot find any of the filtered rows");
    assert!(
        result.truncated_by_filter,
        "hitting an artificial cap short of the target must be reported, not returned as a silent short answer"
    );
}

#[test]
fn a_row_deleted_after_build_is_silently_absent_from_results() {
    let mut s = storage_with(&[("a", [1.0, 0.0, 0.0]), ("b", [0.9, 0.1, 0.0])], DistanceMetric::Cosine);
    let ivf = ivf(&s, DistanceMetric::Cosine, &ivf_params(1, 5, 1));
    s.delete(&ctx(), "docs", "a").unwrap();

    let hits = search(&ivf, &s, &[1.0, 0.0, 0.0], 5, None, &params(1)).hits;
    assert_eq!(hits.len(), 1, "the deleted row's stale posting-list entry must not resurface it");
    assert_eq!(hits[0].id, id_of(&s, "b"));
}

// Quantised vectors.

fn spread_collection(dim: usize, n_clusters: usize, per_cluster: usize, seed: u64) -> Storage {
    let mut rng = ChaCha8Rng::seed_from_u64(seed);
    let mut s = empty_storage(dim, DistanceMetric::L2);
    let mut i = 0;
    for c in 0..n_clusters {
        let center: Vec<f32> = (0..dim).map(|d| if d == c % dim { 50.0 } else { 0.0 }).collect();
        for _ in 0..per_cluster {
            let v: Vec<f32> = center.iter().map(|x| x + rng.gen_range(-1.0..1.0)).collect();
            put(&mut s, &format!("k{i}"), &v);
            i += 1;
        }
    }
    s
}

fn pq_params(m: usize, ksub: usize, kmeans_iters: usize, seed: u64) -> PqParams {
    PqParams { m, ksub, kmeans_iters, seed }
}

fn first_axis(dim: usize) -> Vec<f32> {
    let mut query = vec![0.0; dim];
    query[0] = 50.0;
    query
}

#[test]
fn exact_rerank_default_recovers_flat_index_top_hit_for_a_centered_query() {
    let dim = 8;
    let s = spread_collection(dim, 4, 20, 1);
    let ivf_pq =
        build_ivf_pq(&s, "docs", dim, DistanceMetric::L2, &ivf_params(4, 15, 2), &pq_params(4, 16, 10, 3)).ok().unwrap();
    let flat = FlatIndex::new(dim, DistanceMetric::L2);

    let query = first_axis(dim);
    let pq_hits = search(&ivf_pq, &s, &query, 3, None, &params(4)).hits;
    let flat_hits = search(&flat, &s, &query, 3, None, &params(0)).hits;

    assert!(pq_hits.iter().all(|h| h.exact), "default rerank_k must always exact-score");
    assert_eq!(pq_hits[0].id, flat_hits[0].id, "the nearest true neighbor must survive ADC shortlisting + exact rerank");
}

#[test]
fn build_with_opq_still_recovers_the_true_nearest_neighbor() {
    let dim = 8;
    let s = spread_collection(dim, 4, 20, 9);
    let ivf_pq = build_ivf_opq(
        &s,
        "docs",
        dim,
        DistanceMetric::L2,
        &ivf_params(4, 15, 10),
        &OpqParams { pq: pq_params(4, 16, 10, 11), iterations: 5 },
    )
    .ok()
    .unwrap();
    assert!(ivf_pq.opq_enabled());
    let flat = FlatIndex::new(dim, DistanceMetric::L2);

    let query = first_axis(dim);
    let pq_hits = search(&ivf_pq, &s, &query, 3, None, &params(4)).hits;
    let flat_hits = search(&flat, &s, &query, 3, None, &params(0)).hits;

    assert!(pq_hits.iter().all(|h| h.exact));
    assert_eq!(pq_hits[0].id, flat_hits[0].id, "the rotation must not break exact-rerank correctness");
    assert!((score_of(&pq_hits[0]) - score_of(&flat_hits[0])).abs() < 1e-3);
}

#[test]
fn rerank_k_zero_returns_fast_inexact_results() {
    let dim = 8;
    let s = spread_collection(dim, 2, 15, 5);
    let ivf_pq =
        build_ivf_pq(&s, "docs", dim, DistanceMetric::L2, &ivf_params(2, 15, 6), &pq_params(4, 16, 10, 7)).ok().unwrap();
    assert_eq!(ivf_pq.pq_m(), 4);
    assert!(!ivf_pq.opq_enabled());

    let query = first_axis(dim);
    let hits = search(&ivf_pq, &s, &query, 5, None, &params(2)).hits;
    let no_rerank = SearchParams { rerank_k: Some(0), ..params(2) };
    let hits_no_rerank = search(&ivf_pq, &s, &query, 5, None, &no_rerank).hits;
    assert!(!hits_no_rerank.is_empty());
    assert!(hits_no_rerank.iter().all(|h| !h.exact), "rerank_k=0 must mark hits inexact");
    assert!(!hits.is_empty());
}

#[test]
fn ivf_pq_m_not_dividing_dim_surfaces_as_a_build_error() {
    let mut s = empty_storage(10, DistanceMetric::Cosine);
    put(&mut s, "a", &[1.0; 10]);
    let err = build_ivf_pq(&s, "docs", 10, DistanceMetric::Cosine, &IvfParams::default(), &pq_params(3, 4, 5, 1)).err().unwrap();
    assert!(matches!(err, IndexError::Pq(_)));
}

#[test]
fn ivf_pq_dimension_mismatch_is_a_clear_error() {
    let s = spread_collection(4, 1, 5, 1);
    let ivf_pq = build_ivf_pq(&s, "docs", 4, DistanceMetric::L2, &ivf_params(1, 5, 1), &pq_params(2, 4, 5, 1)).ok().unwrap();
    let err = refusal(&ivf_pq, &s, &[1.0, 0.0], &params(1));
    assert!(matches!(err, IndexError::DimMismatch { expected: 4, got: 2 }));
}

#[test]
fn ivf_pq_empty_collection_builds_and_searches_without_panicking() {
    let s = empty_storage(8, DistanceMetric::Cosine);
    let ivf_pq =
        build_ivf_pq(&s, "docs", 8, DistanceMetric::Cosine, &IvfParams::default(), &pq_params(4, 16, 5, 1)).ok().unwrap();
    assert_eq!(ivf_pq.n_clusters(), 0);
    let hits = search(&ivf_pq, &s, &[0.0; 8], 5, None, &params(4)).hits;
    assert!(hits.is_empty());
}

#[test]
fn ivf_pq_filter_mask_excludes_non_matching_rows() {
    let s = spread_collection(8, 1, 10, 2);
    let id_first = id_of(&s, "k0");
    let ivf_pq = build_ivf_pq(&s, "docs", 8, DistanceMetric::L2, &ivf_params(1, 5, 1), &pq_params(4, 16, 5, 1)).ok().unwrap();
    let hits = search(&ivf_pq, &s, &first_axis(8), 5, Some(&mask_of(&[id_first])), &params(1)).hits;
    assert_eq!(hits.len(), 1);
    assert_eq!(hits[0].id, id_first);
}

#[test]
fn ivf_pq_compiled_filter_mask_from_storage_round_trips_through_search() {
    let s = tagged_storage(&[("a", "keep", &[1.0, 0.0, 0.0, 0.0]), ("b", "drop", &[0.9, 0.1, 0.0, 0.0])]);
    let ivf_pq =
        build_ivf_pq(&s, "docs", 4, DistanceMetric::Cosine, &ivf_params(1, 5, 1), &pq_params(2, 4, 5, 1)).ok().unwrap();
    let hits = search(&ivf_pq, &s, &[1.0, 0.0, 0.0, 0.0], 5, Some(&keep_mask(&s)), &params(1)).hits;
    assert_eq!(hits.len(), 1);
    assert_eq!(hits[0].id, id_of(&s, "a"));
}

#[test]
fn ivf_pq_max_chunks_per_doc_caps_hits_from_one_document() {
    let s = one_document(4);
    let ivf_pq =
        build_ivf_pq(&s, "docs", 4, DistanceMetric::Cosine, &ivf_params(1, 5, 1), &pq_params(2, 4, 5, 1)).ok().unwrap();
    let capped = SearchParams { max_chunks_per_doc: Some(2), ..params(1) };
    let hits = search(&ivf_pq, &s, &[1.0, 0.0, 0.0, 0.0], 10, None, &capped).hits;
    assert_eq!(hits.len(), 2, "only 2 of the document's 5 chunks may appear");
}

fn synthetic_vectors(dim: usize, n: usize, seed: u64) -> Vec<Vec<f32>> {
    let mut rng = ChaCha8Rng::seed_from_u64(seed);
    (0..n).map(|_| (0..dim).map(|_| rng.gen_range(-10.0..10.0)).collect()).collect()
}

fn encode(codebook: &PqCodebook, v: &[f32]) -> Vec<u8> {
    codebook.encode(&part_distances(codebook, v))
}

#[test]
fn m_not_dividing_dim_is_a_clear_error_with_suggestions() {
    let vectors = synthetic_vectors(10, 5, 1);
    let err = train_codebook(&vectors, 10, &pq_params(3, 4, 5, 1)).err().unwrap();
    match err {
        PqError::MDoesNotDivideDim { m, dim, suggested } => {
            assert_eq!(m, 3);
            assert_eq!(dim, 10);
            assert!(suggested.contains(&2));
            assert!(suggested.contains(&5));
            assert!(!suggested.contains(&3));
        }
        PqError::KsubOutOfRange(_) => panic!("expected MDoesNotDivideDim"),
    }
    assert_eq!(divisors(10), vec![2, 5, 10]);
}

#[test]
fn ksub_out_of_range_is_a_clear_error() {
    let vectors = synthetic_vectors(8, 5, 1);
    let err = train_codebook(&vectors, 8, &pq_params(2, 300, 5, 1)).err().unwrap();
    assert!(matches!(err, PqError::KsubOutOfRange(300)));
    let err = train_codebook(&vectors, 8, &pq_params(2, 0, 5, 1)).err().unwrap();
    assert!(matches!(err, PqError::KsubOutOfRange(0)));
}

#[test]
fn encode_then_adc_self_distance_is_near_zero() {
    let vectors = synthetic_vectors(16, 200, 7);
    let codebook = train_codebook(&vectors, 16, &pq_params(4, 16, 15, 3)).ok().unwrap();

    for (at, v) in vectors.iter().take(10).enumerate() {
        let code = encode(&codebook, v);
        assert_eq!(code.len(), 4);
        let table = part_distances(&codebook, v);
        let self_dist = code_distance(&table, &code);
        let other_code = encode(&codebook, &vectors[(at + 100) % vectors.len()]);
        let other_dist = code_distance(&table, &other_code);
        assert!(self_dist <= other_dist, "a vector's own code must not score worse than an arbitrary other code");
    }
}

#[test]
fn adc_distance_correlates_with_true_l2_distance() {
    let vectors = synthetic_vectors(32, 300, 11);
    let codebook = train_codebook(&vectors, 32, &pq_params(8, 32, 15, 5)).ok().unwrap();
    let codes: Vec<Vec<u8>> = vectors.iter().map(|v| encode(&codebook, v)).collect();

    let query = &vectors[0];
    let table = part_distances(&codebook, query);
    let ranked = |distances: Vec<f32>| {
        let mut order: Vec<(usize, f32)> = distances.into_iter().enumerate().collect();
        order.sort_by(|a, b| a.1.partial_cmp(&b.1).unwrap());
        order
    };
    let by_true = ranked(vectors.iter().map(|v| l2_sq(query, v)).collect());
    let by_adc = ranked(codes.iter().map(|c| code_distance(&table, c)).collect());

    assert_eq!(by_true[0].0, 0, "query is its own true nearest neighbor");
    assert_eq!(by_adc[0].0, 0, "query's own code must also be its ADC-nearest");

    let true_top10: HashSet<usize> = by_true.iter().take(10).map(|(i, _)| *i).collect();
    let adc_top10: HashSet<usize> = by_adc.iter().take(10).map(|(i, _)| *i).collect();
    let overlap = true_top10.intersection(&adc_top10).count();
    assert!(overlap >= 5, "ADC top-10 should substantially overlap true top-10, got {overlap}/10");
}

#[test]
fn compression_ratio_matches_m_bytes_per_code() {
    let vectors = synthetic_vectors(16, 50, 1);
    let codebook = train_codebook(&vectors, 16, &pq_params(4, 16, 5, 1)).ok().unwrap();
    let code = encode(&codebook, &vectors[0]);
    assert_eq!(code.len(), 4, "4 subspaces -> 4-byte code, vs. 16 f32s (64 bytes) raw");
    assert_eq!(codebook.decode(&code).len(), 16);
    assert_eq!(codebook.ksub(), 16);
}

#[test]
fn vectors_split_into_equal_parts() {
    assert_eq!(split(&vec![1, 2, 3, 4, 5, 6], 3, 2), vec![vec![1, 2], vec![3, 4], vec![5, 6]]);
    assert_eq!(check_params(6, &pq_params(3, 256, 1, 0)).ok(), Some(2));
    assert_eq!(subspace_seed(u64::MAX, 1), 0);
}

#[test]
fn identity_rotation_leaves_vectors_unchanged() {
    let id = OpqRotation::identity(4);
    let v = vec![1.0, 2.0, 3.0, 4.0];
    let out = rotate(&id, &v);
    for (a, b) in v.iter().zip(&out) {
        assert!((a - b).abs() < 1e-6);
    }
}

#[test]
fn a_learned_rotation_is_orthogonal_norm_preserving() {
    let mut rng = ChaCha8Rng::seed_from_u64(1);
    let dim = 8;
    let vectors: Vec<Vec<f32>> = (0..200).map(|_| (0..dim).map(|_| rng.gen_range(-5.0..5.0)).collect()).collect();
    let opq = OpqParams { pq: pq_params(4, 16, 10, 2), iterations: 5 };
    let (rotation, _codebook) = train_opq(&vectors, dim, &opq).ok().unwrap();

    for v in vectors.iter().take(10) {
        let orig_norm = norm(v);
        let rotated_norm = norm(&rotate(&rotation, v));
        assert!(
            (orig_norm - rotated_norm).abs() < 1e-2,
            "orthogonal rotation must preserve vector norm: {orig_norm} vs {rotated_norm}"
        );
    }
}

#[test]
fn rotation_and_codebook_are_mutually_consistent() {
    let mut rng = ChaCha8Rng::seed_from_u64(3);
    let dim = 8;
    let vectors: Vec<Vec<f32>> = (0..200).map(|_| (0..dim).map(|_| rng.gen_range(-5.0..5.0)).collect()).collect();
    let opq = OpqParams { pq: pq_params(4, 16, 10, 4), iterations: 4 };
    let (rotation, codebook) = train_opq(&vectors, dim, &opq).ok().unwrap();

    for v in vectors.iter().take(5) {
        let rotated = rotate(&rotation, v);
        let decoded = floats_of(&codebook.decode(&encode(&codebook, &rotated)));
        let err = l2_sq(&rotated, &decoded);
        let scale = l2_sq(&rotated, &vec![0.0; dim]);
        assert!(err < scale, "quantization error ({err}) should be well below the vector's own scale ({scale})");
    }
}

#[test]
fn empty_input_returns_identity_and_a_trained_but_empty_codebook() {
    let opq = OpqParams { pq: pq_params(4, 16, 5, 1), iterations: 5 };
    let (rotation, codebook) = train_opq(&[], 8, &opq).ok().unwrap();
    let v = vec![1.0, 2.0, 3.0, 4.0, 5.0, 6.0, 7.0, 8.0];
    let out = rotate(&rotation, &v);
    for (a, b) in v.iter().zip(&out) {
        assert!((a - b).abs() < 1e-6);
    }
    assert_eq!(codebook.m(), 4);
}

#[test]
fn opq_m_not_dividing_dim_surfaces_as_a_build_error() {
    let vectors: Vec<Vec<f32>> = vec![vec![1.0; 10]; 5];
    let opq = OpqParams { pq: pq_params(3, 4, 5, 1), iterations: 3 };
    let err = train_opq(&vectors, 10, &opq).err().unwrap();
    assert!(matches!(err, PqError::MDoesNotDivideDim { .. }));
}

#[test]
fn rotations_are_stored_transposed() {
    let rotation = OpqRotation::from_rows(&vec![1, 2, 3, 4], 2);
    assert_eq!(rotation.matrix_t, vec![1, 3, 2, 4]);
    let opq = OpqParams { pq: pq_params(1, 1, 1, 7), iterations: 3 };
    assert_eq!(opq.rounds(), 3);
    assert_eq!(opq.round_params(2).seed, 9);
    assert!(opq.rotates_after(1));
    assert!(!opq.rotates_after(2));
}

// Clustering.

fn cluster_around(center: [f32; 2], n: usize, spread: f32, rng: &mut ChaCha8Rng) -> Vec<Vec<f32>> {
    (0..n).map(|_| vec![center[0] + rng.gen_range(-spread..spread), center[1] + rng.gen_range(-spread..spread)]).collect()
}

#[test]
fn well_separated_clusters_are_recovered_with_correct_assignments() {
    let mut rng = ChaCha8Rng::seed_from_u64(42);
    let mut points = Vec::new();
    points.extend(cluster_around([0.0, 0.0], 20, 0.5, &mut rng));
    points.extend(cluster_around([100.0, 0.0], 20, 0.5, &mut rng));
    points.extend(cluster_around([0.0, 100.0], 20, 0.5, &mut rng));

    let result = kmeans(&points, 3, 20, 7);
    assert_eq!(result.centroids.len(), 3);

    let group_of = |i: usize| i / 20;
    for i in 0..points.len() {
        for j in 0..points.len() {
            if group_of(i) == group_of(j) {
                assert_eq!(
                    result.assignments[i], result.assignments[j],
                    "points {i} and {j} are in the same input group but landed in different clusters"
                );
            }
        }
    }
}

#[test]
fn k_greater_than_point_count_is_clamped_not_a_panic() {
    let points = vec![vec![1.0, 2.0], vec![3.0, 4.0]];
    let result = kmeans(&points, 10, 5, 1);
    assert_eq!(result.centroids.len(), 2);
    assert_eq!(cluster_count(0, 2), 1);
}

#[test]
fn empty_input_returns_empty_result() {
    let result = kmeans(&[], 5, 5, 1);
    assert!(result.centroids.is_empty());
    assert!(result.assignments.is_empty());
}

#[test]
fn duplicate_points_do_not_panic_kmeans_plus_plus_init() {
    let points = vec![vec![1.0, 1.0]; 10];
    let result = kmeans(&points, 3, 5, 1);
    assert_eq!(result.centroids.len(), 3);
    assert_eq!(result.assignments.len(), 10);
}

#[test]
fn same_seed_gives_deterministic_clustering() {
    let mut rng = ChaCha8Rng::seed_from_u64(9);
    let mut points = Vec::new();
    points.extend(cluster_around([0.0, 0.0], 15, 1.0, &mut rng));
    points.extend(cluster_around([50.0, 50.0], 15, 1.0, &mut rng));

    let a = kmeans(&points, 2, 10, 123);
    let b = kmeans(&points, 2, 10, 123);
    assert_eq!(a.centroids, b.centroids);
    assert_eq!(a.assignments, b.assignments);
}

#[test]
fn single_cluster_centroid_is_the_mean_of_all_points() {
    let points = vec![vec![0.0, 0.0], vec![2.0, 0.0], vec![0.0, 2.0], vec![2.0, 2.0]];
    let result = kmeans(&points, 1, 10, 1);
    assert_eq!(result.centroids.len(), 1);
    let centre = floats_of(&result.centroids[0]);
    assert!((centre[0] - 1.0).abs() < 1e-5);
    assert!((centre[1] - 1.0).abs() < 1e-5);
}

#[test]
fn the_first_of_equally_near_centres_is_chosen() {
    assert_eq!(nearest(&bits_of(&[2.0, 1.0, 1.0])), 1);
    assert_eq!(assign(&vec![bits_of(&[0.0, 3.0]), bits_of(&[3.0, 0.5])]), vec![0, 1]);
    assert!(draws_by_weight(&bits_of(&[0.0, 0.25])));
    assert!(!draws_by_weight(&bits_of(&[0.0, 0.0])));
}

#[test]
fn clustering_stops_once_nothing_moves() {
    let mut rounds = Rounds::new(10);
    assert!(rounds.step(vec![0, 1]));
    assert_eq!(rounds.left, 9);
    assert!(!rounds.step(vec![0, 1]));
    assert_eq!(rounds.left, 0);
    assert_eq!(Rounds::new(0).left, 1);
}

#[test]
fn sorting_is_stable_and_ascending() {
    assert_eq!(stable_order(&vec![5, 1, 5, 0]), vec![3, 1, 0, 2]);
}

// Hashing.

#[test]
fn an_exact_match_query_is_always_found() {
    let s = storage_with(&[("a", [1.0, 0.0, 0.0]), ("b", [0.0, 1.0, 0.0]), ("c", [0.0, 0.0, 1.0])], DistanceMetric::Cosine);
    let lsh = build_lsh(&s, "docs", 3, DistanceMetric::Cosine, &LshParams::default()).ok().unwrap();
    let hits = search(&lsh, &s, &[1.0, 0.0, 0.0], 3, None, &ungrouped()).hits;
    assert_eq!(
        hits[0].id,
        id_of(&s, "a"),
        "a query identical to a stored vector must land in that vector's own bucket in every table"
    );
}

#[test]
fn well_separated_clusters_are_found_with_full_recall() {
    let mut rng = ChaCha8Rng::seed_from_u64(1);
    let mut s = empty_storage(3, DistanceMetric::Cosine);
    let centers = [[10.0f32, 0.0, 0.0], [0.0, 10.0, 0.0], [0.0, 0.0, 10.0]];
    for (ci, c) in centers.iter().enumerate() {
        for i in 0..10 {
            let v = [c[0] + rng.gen_range(-0.1..0.1), c[1] + rng.gen_range(-0.1..0.1), c[2] + rng.gen_range(-0.1..0.1)];
            put(&mut s, &format!("k{ci}_{i}"), &v);
        }
    }
    let lsh = build_lsh(&s, "docs", 3, DistanceMetric::Cosine, &LshParams::default()).ok().unwrap();
    let hits = search(&lsh, &s, &[10.0, 0.0, 0.0], 10, None, &ungrouped()).hits;
    assert_eq!(hits.len(), 10, "all 10 points from a tightly-clustered, well-separated group must be found");
    assert!(hits.iter().all(|h| h.exact));
}

#[test]
fn more_tables_never_reduces_the_candidate_pool() {
    let mut rng = ChaCha8Rng::seed_from_u64(2);
    let mut s = empty_storage(3, DistanceMetric::Cosine);
    for i in 0..60 {
        let v = [rng.gen_range(-1.0..1.0), rng.gen_range(-1.0..1.0), rng.gen_range(-1.0..1.0)];
        put(&mut s, &format!("k{i}"), &v);
    }
    let build = |num_tables: usize| {
        let p = LshParams { num_tables, num_hyperplanes: 20, seed: 3 };
        build_lsh(&s, "docs", 3, DistanceMetric::Cosine, &p).ok().unwrap()
    };
    let few = build(1);
    let many = build(16);
    assert_eq!(many.num_tables(), 16);

    let query = [0.5, 0.5, 0.5];
    let few_hits = search(&few, &s, &query, 60, None, &ungrouped()).hits.len();
    let many_hits = search(&many, &s, &query, 60, None, &ungrouped()).hits.len();
    assert!(
        many_hits >= few_hits,
        "unioning more independent tables must never find fewer candidates, got {few_hits} (1 table) vs {many_hits} (16 tables)"
    );
}

#[test]
fn lsh_dimension_mismatch_is_a_clear_error() {
    let s = storage_with(&[("a", [1.0, 0.0, 0.0])], DistanceMetric::Cosine);
    let lsh = build_lsh(&s, "docs", 3, DistanceMetric::Cosine, &LshParams::default()).ok().unwrap();
    let err = refusal(&lsh, &s, &[1.0, 0.0], &ungrouped());
    assert!(matches!(err, IndexError::DimMismatch { expected: 3, got: 2 }));
}

#[test]
fn lsh_empty_collection_builds_and_searches_without_panicking() {
    let s = empty_storage(3, DistanceMetric::Cosine);
    let lsh = build_lsh(&s, "docs", 3, DistanceMetric::Cosine, &LshParams::default()).ok().unwrap();
    let hits = search(&lsh, &s, &[1.0, 0.0, 0.0], 5, None, &ungrouped()).hits;
    assert!(hits.is_empty());
}

#[test]
fn num_hyperplanes_out_of_range_is_a_clear_error() {
    let s = storage_with(&[("a", [1.0, 0.0, 0.0])], DistanceMetric::Cosine);
    let refused = |num_hyperplanes: usize| {
        let p = LshParams { num_tables: 4, num_hyperplanes, seed: 1 };
        build_lsh(&s, "docs", 3, DistanceMetric::Cosine, &p).err().unwrap()
    };
    assert!(matches!(refused(33), IndexError::Lsh(LshError::NumHyperplanesOutOfRange(33))));
    assert!(matches!(refused(0), IndexError::Lsh(LshError::NumHyperplanesOutOfRange(0))));
}

#[test]
fn lsh_filter_mask_excludes_non_matching_rows() {
    let s = storage_with(&[("a", [1.0, 0.0, 0.0]), ("b", [0.9, 0.1, 0.0])], DistanceMetric::Cosine);
    let id_a = id_of(&s, "a");
    let lsh = build_lsh(&s, "docs", 3, DistanceMetric::Cosine, &LshParams::default()).ok().unwrap();
    let hits = search(&lsh, &s, &[1.0, 0.0, 0.0], 5, Some(&mask_of(&[id_a])), &ungrouped()).hits;
    assert_eq!(hits.len(), 1);
    assert_eq!(hits[0].id, id_a);
}

#[test]
fn lsh_compiled_filter_mask_from_storage_round_trips_through_search() {
    let s = tagged_storage(&[("a", "keep", &[1.0, 0.0, 0.0]), ("b", "drop", &[0.9, 0.1, 0.0])]);
    let lsh = build_lsh(&s, "docs", 3, DistanceMetric::Cosine, &LshParams::default()).ok().unwrap();
    let hits = search(&lsh, &s, &[1.0, 0.0, 0.0], 5, Some(&keep_mask(&s)), &ungrouped()).hits;
    assert_eq!(hits.len(), 1);
    assert_eq!(hits[0].id, id_of(&s, "a"));
}

#[test]
fn lsh_max_chunks_per_doc_caps_hits_from_one_document() {
    let s = one_document(3);
    let lsh = build_lsh(&s, "docs", 3, DistanceMetric::Cosine, &LshParams::default()).ok().unwrap();
    let capped = SearchParams { max_chunks_per_doc: Some(2), ..SearchParams::default() };
    let hits = search(&lsh, &s, &[1.0, 0.0, 0.0], 10, None, &capped).hits;
    assert_eq!(hits.len(), 2, "only 2 of the document's 5 chunks may appear");
}

#[test]
fn the_same_seed_always_produces_the_same_buckets() {
    let s = storage_with(&[("a", [1.0, 0.2, -0.3]), ("b", [0.5, -0.7, 0.1])], DistanceMetric::Cosine);
    let p = LshParams { num_tables: 4, num_hyperplanes: 10, seed: 42 };
    let a = build_lsh(&s, "docs", 3, DistanceMetric::Cosine, &p).ok().unwrap();
    let b = build_lsh(&s, "docs", 3, DistanceMetric::Cosine, &p).ok().unwrap();
    let query = [0.3, 0.1, -0.2];
    let hits_a = search(&a, &s, &query, 5, None, &ungrouped());
    let hits_b = search(&b, &s, &query, 5, None, &ungrouped());
    assert!(
        hits_a.hits == hits_b.hits,
        "the same seed must reproduce identical hyperplanes and therefore identical results"
    );
}

#[test]
fn bucket_keys_have_a_bit_for_each_sign() {
    assert_eq!(bucket_key(&vec![]), 0);
    assert_eq!(bucket_key(&vec![true, false, true]), 5);
    assert_eq!(bucket_key(&vec![true; 32]), u32::MAX);
}

// Live indexes.

fn flat_builder() -> Builder {
    Box::new(|storage, coll| {
        let info = storage.collection_info(coll).map_err(IndexError::Storage)?;
        let index: Box<dyn VectorIndex> = Box::new(FlatIndex::new(info.dim, info.metric));
        Ok(index)
    })
}

fn l2_storage(rows: &[(&str, [f32; 3])]) -> Storage {
    let mut s = storage_with(rows, DistanceMetric::L2);
    forget_changes(&mut s);
    s
}

fn flat_live(s: &Storage) -> Live {
    Live::build(s, flat_builder(), DistanceMetric::L2, LiveIndexParams::default())
}

#[test]
fn without_a_subscription_delta_and_tombstones_never_see_storage_writes() {
    let mut s = l2_storage(&[("a", [1.0, 0.0, 0.0])]);
    let live = flat_live(&s);

    put(&mut s, "b", &[0.0, 1.0, 0.0]);
    s.delete(&ctx(), "docs", "a").unwrap();

    assert_eq!(live.state.delta_len(), 0, "without a subscription, no write reaches delta");
    assert_eq!(live.state.tombstone_count(), 0, "without a subscription, no delete reaches tombstones");
}

#[test]
fn wrapping_a_genuinely_cached_index_a_late_write_is_missed_by_baked_alone_but_found_via_delta() {
    let mut s = l2_storage(&[("a", [1.0, 0.0, 0.0]), ("b", [0.0, 50.0, 0.0]), ("c", [0.0, 0.0, 50.0])]);
    let ivf_builder: Builder = Box::new(|storage, coll| {
        let info = storage.collection_info(coll).map_err(IndexError::Storage)?;
        let index: Box<dyn VectorIndex> = Box::new(build_ivf(storage, coll, info.dim, info.metric, &ivf_params(3, 10, 1))?);
        Ok(index)
    });
    let mut live = Live::build(&s, ivf_builder, DistanceMetric::L2, LiveIndexParams::default());

    let d_id = put(&mut s, "d", &[1.1, 0.0, 0.0]);
    let exhaustive = params(3);
    let before = search(&live, &s, &[1.1, 0.0, 0.0], 5, None, &exhaustive).hits;
    assert!(
        before.iter().all(|h| h.id != d_id),
        "an unsubscribed LiveIndex wrapping a cached IVF index must not see a post-build write"
    );

    forget_changes(&mut s);
    let e_id = put(&mut s, "e", &[1.05, 0.0, 0.0]);
    deliver(&mut s, &mut live);
    let after = search(&live, &s, &[1.05, 0.0, 0.0], 5, None, &exhaustive).hits;
    assert!(
        after.iter().any(|h| h.id == e_id),
        "once subscribed, a write the cached baked index never scanned must still be found via delta"
    );
}

#[test]
fn a_write_after_build_is_found_via_delta_once_subscribed() {
    let mut s = l2_storage(&[("a", [1.0, 0.0, 0.0])]);
    let mut live = flat_live(&s);

    put(&mut s, "b", &[0.0, 1.0, 0.0]);
    deliver(&mut s, &mut live);
    assert_eq!(live.state.delta_len(), 1);

    let hits = search(&live, &s, &[0.0, 1.0, 0.0], 5, None, &params(1)).hits;
    assert_eq!(hits.len(), 2, "both the baked row and the fresh delta row must be found");
    assert_eq!(hits[0].id, id_of(&s, "b"), "the exact match, found via delta, must rank first");
}

#[test]
fn a_delete_is_hidden_via_tombstones_before_any_rebuild() {
    let mut s = l2_storage(&[("a", [1.0, 0.0, 0.0]), ("b", [0.9, 0.1, 0.0])]);
    let mut live = flat_live(&s);

    let a_id = id_of(&s, "a");
    s.delete(&ctx(), "docs", "a").unwrap();
    deliver(&mut s, &mut live);
    assert_eq!(live.state.tombstone_count(), 1);

    let hits = search(&live, &s, &[1.0, 0.0, 0.0], 5, None, &params(1)).hits;
    assert!(hits.iter().all(|h| h.id != a_id), "a tombstoned row must never surface as a hit");
}

#[test]
fn filter_excludes_a_tombstoned_row_thats_still_in_baked() {
    let mut s = l2_storage(&[("a", [1.0, 0.0, 0.0]), ("b", [0.9, 0.1, 0.0])]);
    let mut live = flat_live(&s);

    let a_id = id_of(&s, "a");
    let b_id = id_of(&s, "b");
    s.delete(&ctx(), "docs", "a").unwrap();
    deliver(&mut s, &mut live);

    let hits = search(&live, &s, &[1.0, 0.0, 0.0], 5, Some(&mask_of(&[a_id, b_id])), &params(1)).hits;
    assert_eq!(hits.len(), 1);
    assert_eq!(hits[0].id, b_id);
}

#[test]
fn rebuild_moves_delta_rows_into_baked_and_clears_covered_state() {
    let mut s = l2_storage(&[("a", [1.0, 0.0, 0.0])]);
    let mut live = flat_live(&s);

    put(&mut s, "b", &[0.0, 1.0, 0.0]);
    s.delete(&ctx(), "docs", "a").unwrap();
    deliver(&mut s, &mut live);
    assert_eq!(live.state.delta_len(), 1);
    assert_eq!(live.state.tombstone_count(), 1);

    live.rebuild(&s);
    assert_eq!(live.state.delta_len(), 0, "the row rebuild just baked in must be cleared from delta");
    assert_eq!(
        live.state.tombstone_count(),
        0,
        "the delete rebuild's fresh scan already excludes must be cleared from tombstones"
    );

    let hits = search(&live, &s, &[0.0, 1.0, 0.0], 5, None, &params(1)).hits;
    assert_eq!(hits.len(), 1);
    assert_eq!(hits[0].id, id_of(&s, "b"), "\"b\" must still be found, now via baked instead of delta");
}

#[test]
fn rebuild_preserves_a_write_that_arrives_during_the_scan_window() {
    let mut s = l2_storage(&[("a", [1.0, 0.0, 0.0])]);
    let mut live = flat_live(&s);

    put(&mut s, "b", &[0.0, 1.0, 0.0]);
    deliver(&mut s, &mut live);
    let b_id = id_of(&s, "b");
    live.state.delta.push((b_id, bits_of(&[0.0, 1.0, 0.0])));
    assert_eq!(live.state.delta_len(), 2);

    live.rebuild(&s);
    assert!(live.state.delta_len() <= 1, "rebuild must clear at least the pre-scan-covered entry");
}

#[test]
fn a_write_between_scan_and_swap_stays_in_the_delta() {
    let mut s = l2_storage(&[("a", [1.0, 0.0, 0.0])]);
    let mut live = flat_live(&s);
    put(&mut s, "b", &[0.0, 1.0, 0.0]);
    deliver(&mut s, &mut live);

    let start = live.state.begin_rebuild();
    let c_id = put(&mut s, "c", &[0.0, 0.0, 1.0]);
    s.delete(&ctx(), "docs", "a").unwrap();
    deliver(&mut s, &mut live);
    live.state.finish_rebuild(&start, 2);

    assert_eq!(live.state.delta_len(), 1);
    assert_eq!(live.state.delta[0].0, c_id);
    assert_eq!(live.state.tombstone_count(), 1);
    assert_eq!(live.state.baked_row_count, 2);
}

#[test]
fn should_rebuild_triggers_once_delta_crosses_the_fraction_threshold() {
    let mut s = l2_storage(&[("a", [1.0, 0.0, 0.0]), ("b", [0.0, 1.0, 0.0])]);
    let p = LiveIndexParams {
        rebuild_threshold_fraction: 0.5f64.to_bits(),
        rebuild_threshold_cap: 5_000,
        rebuild_safety_interval: 6 * 3600 * 1_000_000_000,
    };
    let mut live = Live::build(&s, flat_builder(), DistanceMetric::L2, p);
    assert!(!live.should_rebuild(0));

    put(&mut s, "c", &[0.0, 0.0, 1.0]);
    deliver(&mut s, &mut live);
    assert!(live.should_rebuild(0));
}

#[test]
fn should_rebuild_triggers_on_the_safety_timer_even_with_an_empty_delta() {
    let s = l2_storage(&[("a", [1.0, 0.0, 0.0])]);
    let p = LiveIndexParams {
        rebuild_threshold_fraction: 0.05f64.to_bits(),
        rebuild_threshold_cap: 5_000,
        rebuild_safety_interval: 1_000_000,
    };
    let live = Live::build(&s, flat_builder(), DistanceMetric::L2, p);
    assert!(live.should_rebuild(20_000_000), "an empty delta must not suppress the safety-timer trigger");
    assert!(!live.should_rebuild(999_999));
}

#[test]
fn max_chunks_per_doc_groups_across_baked_and_delta_together() {
    let mut s = empty_storage(3, DistanceMetric::Cosine);
    add_document(&mut s, "big.md", &[vec![1.0, 0.0, 0.0], vec![0.99, 0.0, 0.0]]);
    forget_changes(&mut s);

    let mut live = Live::build(&s, flat_builder(), DistanceMetric::Cosine, LiveIndexParams::default());
    add_document(&mut s, "big2.md", &[vec![0.98, 0.0, 0.0]]);
    deliver(&mut s, &mut live);

    let grouped = SearchParams { max_chunks_per_doc: Some(1), nprobe: 1, ..SearchParams::default() };
    let hits = search(&live, &s, &[1.0, 0.0, 0.0], 10, None, &grouped).hits;
    let mut per_doc: HashMap<DocId, u32> = HashMap::new();
    for h in &hits {
        if let Some(d) = h.doc_id {
            *per_doc.entry(d).or_insert(0) += 1;
        }
    }
    assert!(
        per_doc.values().all(|&c| c <= 1),
        "max_chunks_per_doc=1 must hold even once delta rows are merged in, got {per_doc:?}"
    );
    assert_eq!(hits.len(), 2);
}

#[test]
fn live_dimension_mismatch_is_a_clear_error() {
    let s = l2_storage(&[("a", [1.0, 0.0, 0.0])]);
    let live = flat_live(&s);
    let err = refusal(&live, &s, &[1.0, 0.0], &params(1));
    assert!(matches!(err, IndexError::DimMismatch { expected: 3, got: 2 }));
}

// Defaults.

#[test]
fn default_parameters_are_as_documented() {
    let p = SearchParams::default();
    assert_eq!(p.max_chunks_per_doc, Some(3));
    assert_eq!((p.nprobe, p.beam_width, p.rerank_k), (8, 8, None));
    assert_eq!(p.filter_exact_threshold, 20_000);
    assert_eq!(f64::from_bits(p.filter_selectivity_high), 0.6);
    assert_eq!(p.filter_nprobe_max, None);

    let ivf = IvfParams::default();
    assert_eq!((ivf.n_clusters, ivf.kmeans_iters, ivf.seed, ivf.hierarchical_threshold), (100, 20, 0, 512));
    let pq = PqParams::default();
    assert_eq!((pq.m, pq.ksub, pq.kmeans_iters, pq.seed), (48, 256, 20, 0));
    assert_eq!(OpqParams::default().iterations, 20);
    let lsh = LshParams::default();
    assert_eq!((lsh.num_tables, lsh.num_hyperplanes, lsh.seed), (8, 20, 0));
    let live = LiveIndexParams::default();
    assert_eq!(f64::from_bits(live.rebuild_threshold_fraction), 0.05);
    assert_eq!(live.rebuild_threshold_cap, 5_000);
    assert_eq!(live.rebuild_safety_interval, 6 * 3600 * 1_000_000_000);
}
