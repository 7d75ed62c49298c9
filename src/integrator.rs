use vstd::prelude::*;

verus! {

/// What the shading recursion may return for ray `r` at `depth`: the scene
/// query gave `h`; on a miss the colour is the environment's; on a hit it is
/// the material's emission `e`, alone when the path stops there, or, when the
/// depth limit allows a bounce and the material sends the path on, `e`
/// combined with the attenuation and the colour that the recursion may
/// return for the scattered ray one bounce deeper.
pub open spec fn shade_post<R, Rec, C, FH, FE, FM, FS, FC>(
    r: &R,
    depth: i32,
    max_ray_depth: i32,
    hit: FH,
    environment: FE,
    emitted: FM,
    scatter: FS,
    combine: FC,
    c: C,
) -> bool where
    FH: Fn(&R) -> Option<Rec>,
    FE: Fn(&R) -> C,
    FM: Fn(&Rec) -> C,
    FS: Fn(&R, &Rec) -> Option<(C, Option<R>)>,
    FC: Fn(C, C, C) -> C,
 decreases max_ray_depth - depth,
 {
    exists|h: Option<Rec>|
        #[trigger] hit.ensures((r,), h) && match h {
            None => environment.ensures((r,), c),
            Some(rec) => exists|e: C|
                #[trigger] emitted.ensures((&rec,), e) && {
                    ||| (c == e && (depth >= max_ray_depth || exists|s: Option<(C, Option<R>)>|
                        #[trigger] scatter.ensures((r, &rec), s) && (s is None || (s->0).1 is None)))
                    ||| (depth < max_ray_depth && exists|s: Option<(C, Option<R>)>, sub: C|
                        #[trigger] scatter.ensures((r, &rec), s) && s is Some && (s->0).1 is Some
                            && shade_post(
                            &((s->0).1->0),
                            (depth + 1) as i32,
                            max_ray_depth,
                            hit,
                            environment,
                            emitted,
                            scatter,
                            combine,
                            sub,
                        ) && #[trigger] combine.ensures((e, (s->0).0, sub), c))
                },
        }
}

/// The colour seen along ray `r`, `depth` bounces into a path: the recursive
/// path-tracing estimator, cut off at `max_ray_depth` bounces. A miss returns
/// the environment's colour; a hit returns the material's emission, plus the
/// attenuated colour of the scattered ray when `depth < max_ray_depth` and the
/// material scatters; from `max_ray_depth` on, the material is not asked to
/// scatter and no further call is made.
pub fn color<R, Rec, C, FH, FE, FM, FS, FC>(
    r: &R,
    depth: i32,
    max_ray_depth: i32,
    hit: &FH,
    environment: &FE,
    emitted: &FM,
    scatter: &FS,
    combine: &FC,
) -> (c: C) where
    FH: Fn(&R) -> Option<Rec>,
    FE: Fn(&R) -> C,
    FM: Fn(&Rec) -> C,
    FS: Fn(&R, &Rec) -> Option<(C, Option<R>)>,
    FC: Fn(C, C, C) -> C,

    requires
        forall|x: &R| hit.requires((x,)),
        forall|x: &R| environment.requires((x,)),
        forall|x: &Rec| emitted.requires((x,)),
        forall|x: &R, y: &Rec| scatter.requires((x, y)),
        forall|x: C, y: C, z: C| combine.requires((x, y, z)),
    ensures
        shade_post(r, depth, max_ray_depth, *hit, *environment, *emitted, *scatter, *combine, c),
    decreases max_ray_depth - depth,
{
    let h = hit(r);
    match h {
        Some(rec) => {
            let e = emitted(&rec);
            if depth < max_ray_depth {
                let s = scatter(r, &rec);
                match s {
                    Some(sc) => {
                        let (attenuation, bounce) = sc;
                        match bounce {
                            Some(next) => {
                                let sub = color(
                                    &next,
                                    depth + 1,
                                    max_ray_depth,
                                    hit,
                                    environment,
                                    emitted,
                                    scatter,
                                    combine,
                                );
                                let c = combine(e, attenuation, sub);
                                return c;
                            },
                            None => {},
                        }
                    },
                    None => {},
                }
            }
            e
        },
        None => environment(r),
    }
}

/// When the scene query never reports a hit, as for a scene without
/// primitives, the colour along every ray is exactly the environment's.
pub proof fn lemma_empty_scene_shows_environment<R, Rec, C, FH, FE, FM, FS, FC>(
    r: &R,
    depth: i32,
    max_ray_depth: i32,
    hit: FH,
    environment: FE,
    emitted: FM,
    scatter: FS,
    combine: FC,
    c: C,
) where
    FH: Fn(&R) -> Option<Rec>,
    FE: Fn(&R) -> C,
    FM: Fn(&Rec) -> C,
    FS: Fn(&R, &Rec) -> Option<(C, Option<R>)>,
    FC: Fn(C, C, C) -> C,

    requires
        forall|x: &R, h: Option<Rec>| #[trigger] hit.ensures((x,), h) ==> h is None,
        shade_post(r, depth, max_ray_depth, hit, environment, emitted, scatter, combine, c),
    ensures
        environment.ensures((r,), c),
{
}

/// At or past the depth limit the recursion stops: the colour is the
/// environment's on a miss and the material's emission alone on a hit, so a
/// path makes at most `max_ray_depth - depth` further bounces.
pub proof fn lemma_depth_limit_stops<R, Rec, C, FH, FE, FM, FS, FC>(
    r: &R,
    depth: i32,
    max_ray_depth: i32,
    hit: FH,
    environment: FE,
    emitted: FM,
    scatter: FS,
    combine: FC,
    c: C,
) where
    FH: Fn(&R) -> Option<Rec>,
    FE: Fn(&R) -> C,
    FM: Fn(&Rec) -> C,
    FS: Fn(&R, &Rec) -> Option<(C, Option<R>)>,
    FC: Fn(C, C, C) -> C,

    requires
        depth >= max_ray_depth,
        shade_post(r, depth, max_ray_depth, hit, environment, emitted, scatter, combine, c),
    ensures
        exists|h: Option<Rec>|
            #[trigger] hit.ensures((r,), h) && match h {
                None => environment.ensures((r,), c),
                Some(rec) => emitted.ensures((&rec,), c),
            },
{
    let h = choose|h: Option<Rec>|
        #[trigger] hit.ensures((r,), h) && match h {
            None => environment.ensures((r,), c),
            Some(rec) => exists|e: C|
                #[trigger] emitted.ensures((&rec,), e) && {
                    ||| (c == e && (depth >= max_ray_depth || exists|s: Option<(C, Option<R>)>|
                        #[trigger] scatter.ensures((r, &rec), s) && (s is None || (s->0).1 is None)))
                    ||| (depth < max_ray_depth && exists|s: Option<(C, Option<R>)>, sub: C|
                        #[trigger] scatter.ensures((r, &rec), s) && s is Some && (s->0).1 is Some
                            && shade_post(
                            &((s->0).1->0),
                            (depth + 1) as i32,
                            max_ray_depth,
                            hit,
                            environment,
                            emitted,
                            scatter,
                            combine,
                            sub,
                        ) && #[trigger] combine.ensures((e, (s->0).0, sub), c))
                },
        };
    assert(hit.ensures((r,), h));
}

} // verus!
