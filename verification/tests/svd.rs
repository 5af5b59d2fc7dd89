use dist_sparse::lapack::svd::{svd_arguments, svd_status, Mode, SvdArguments, SvdError};

#[test]
fn slim_factors_of_a_wide_matrix() {
    let args = svd_arguments((3, 4), (1, 3), Mode::Slim, Mode::Slim).unwrap();
    assert_eq!(
        args,
        SvdArguments {
            jobu: b'S',
            jobvt: b'S',
            m: 3,
            n: 4,
            lda: 3,
            ldu: 3,
            ldvt: 3,
            singular_values: 3,
            superb: 2,
            u_shape: Some((3, 3)),
            vt_shape: Some((3, 4)),
        }
    );
}

#[test]
fn slim_factors_of_a_tall_matrix() {
    let args = svd_arguments((4, 3), (1, 4), Mode::Slim, Mode::Slim).unwrap();
    assert_eq!((args.m, args.n, args.lda, args.ldu, args.ldvt), (4, 3, 4, 4, 3));
    assert_eq!((args.singular_values, args.superb), (3, 2));
    assert_eq!(args.u_shape, Some((4, 3)));
    assert_eq!(args.vt_shape, Some((3, 3)));
}

#[test]
fn full_factors_of_a_square_matrix() {
    let args = svd_arguments((5, 5), (1, 5), Mode::All, Mode::All).unwrap();
    assert_eq!((args.jobu, args.jobvt), (b'A', b'A'));
    assert_eq!((args.ldu, args.ldvt), (5, 5));
    assert_eq!(args.u_shape, Some((5, 5)));
    assert_eq!(args.vt_shape, Some((5, 5)));
    assert_eq!((args.singular_values, args.superb), (5, 4));
}

#[test]
fn full_factors_of_a_wide_matrix() {
    let args = svd_arguments((3, 4), (1, 3), Mode::All, Mode::All).unwrap();
    assert_eq!(args.u_shape, Some((3, 3)));
    assert_eq!(args.vt_shape, Some((4, 4)));
    assert_eq!((args.ldu, args.ldvt), (3, 4));
}

#[test]
fn no_factors() {
    let args = svd_arguments((3, 4), (1, 3), Mode::Skip, Mode::Skip).unwrap();
    assert_eq!((args.jobu, args.jobvt), (b'N', b'N'));
    assert_eq!(args.u_shape, None);
    assert_eq!(args.vt_shape, None);
    assert_eq!((args.ldu, args.ldvt), (3, 3));
    let args = svd_arguments((1, 1), (1, 1), Mode::Skip, Mode::All).unwrap();
    assert_eq!((args.singular_values, args.superb), (1, 0));
}

#[test]
fn shapes_that_cannot_be_decomposed() {
    let e = Err(SvdError::UnsupportedShape);
    assert_eq!(svd_arguments((0, 4), (1, 0), Mode::Slim, Mode::Slim), e);
    assert_eq!(svd_arguments((4, 0), (1, 4), Mode::Slim, Mode::Slim), e);
    let big = i32::MAX as usize + 1;
    assert_eq!(svd_arguments((big, 1), (1, 1), Mode::Slim, Mode::Slim), e);
    assert_eq!(svd_arguments((1, big), (1, 1), Mode::Slim, Mode::Slim), e);
    assert_eq!(svd_arguments((1, 1), (1, big), Mode::Slim, Mode::Slim), e);
    assert!(svd_arguments((big - 1, 1), (1, big - 1), Mode::Skip, Mode::Skip).is_ok());
}

#[test]
fn status_of_the_factorization() {
    assert_eq!(svd_status(0), Ok(()));
    assert_eq!(svd_status(3), Err(SvdError::LapackError(3)));
    assert_eq!(svd_status(-4), Err(SvdError::LapackError(-4)));
}
