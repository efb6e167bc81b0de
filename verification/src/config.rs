//! Architecture configuration of the VaDE deep-clustering model.

use vstd::prelude::*;

verus! {

/// Configuration for VaDE model architecture.
pub struct VaDEConfig {
    /// Number of input features
    pub input_dim: usize,
    /// Dimensionality of latent space
    pub latent_dim: usize,
    /// Number of clusters
    pub n_clusters: usize,
    /// Hidden layer sizes for encoder
    pub encoder_hidden: Vec<usize>,
    /// Hidden layer sizes for decoder
    pub decoder_hidden: Vec<usize>,
}

impl VaDEConfig {
    /// Create a new VaDE configuration with the default architecture
    /// (encoder 500-500-2000, decoder 2000-500-500).
    pub fn new(input_dim: usize, latent_dim: usize, n_clusters: usize) -> (config: Self)
        ensures
            config.input_dim == input_dim,
            config.latent_dim == latent_dim,
            config.n_clusters == n_clusters,
            config.encoder_hidden@ == seq![500usize, 500, 2000],
            config.decoder_hidden@ == seq![2000usize, 500, 500],
    {
        let mut encoder_hidden: Vec<usize> = Vec::new();
        encoder_hidden.push(500);
        encoder_hidden.push(500);
        encoder_hidden.push(2000);
        let mut decoder_hidden: Vec<usize> = Vec::new();
        decoder_hidden.push(2000);
        decoder_hidden.push(500);
        decoder_hidden.push(500);
        VaDEConfig { input_dim, latent_dim, n_clusters, encoder_hidden, decoder_hidden }
    }

    /// Set custom encoder hidden layers.
    pub fn with_encoder_hidden(self, hidden: Vec<usize>) -> (config: Self)
        ensures
            config.input_dim == self.input_dim,
            config.latent_dim == self.latent_dim,
            config.n_clusters == self.n_clusters,
            config.encoder_hidden@ == hidden@,
            config.decoder_hidden@ == self.decoder_hidden@,
    {
        let mut config = self;
        config.encoder_hidden = hidden;
        config
    }

    /// Set custom decoder hidden layers.
    pub fn with_decoder_hidden(self, hidden: Vec<usize>) -> (config: Self)
        ensures
            config.input_dim == self.input_dim,
            config.latent_dim == self.latent_dim,
            config.n_clusters == self.n_clusters,
            config.encoder_hidden@ == self.encoder_hidden@,
            config.decoder_hidden@ == hidden@,
    {
        let mut config = self;
        config.decoder_hidden = hidden;
        config
    }
}

/// The `index`-th mini-batch of `batch_size` samples out of `n_samples`:
/// its start and its length (the last batch may be shorter).
pub fn batch_bounds(n_samples: usize, batch_size: usize, index: usize) -> (bounds: (usize, usize))
    requires
        index * batch_size < n_samples,
    ensures
        bounds.0 == index * batch_size,
        bounds.1 == if n_samples - bounds.0 < batch_size { n_samples - bounds.0 } else { batch_size as int },
        bounds.0 + bounds.1 <= n_samples,
{
    let start = index * batch_size;
    let end = if n_samples - start < batch_size { n_samples } else { start + batch_size };
    (start, end - start)
}

/// Number of mini-batches of `batch_size` samples needed to cover `n_samples`.
pub fn batch_count(n_samples: usize, batch_size: usize) -> (count: usize)
    requires
        batch_size > 0,
        n_samples + batch_size - 1 <= usize::MAX,
    ensures
        count == (n_samples + batch_size - 1) / batch_size as int,
        count * batch_size >= n_samples,
        count * batch_size < n_samples + batch_size,
{
    let count = (n_samples + (batch_size - 1)) / batch_size;
    proof {
        crate::gpu_utils::lemma_ceil_div_bounds(n_samples as int, batch_size as int);
    }
    count
}

} // verus!
